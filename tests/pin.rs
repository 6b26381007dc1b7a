use argon2::password_hash::{PasswordHash, PasswordHasher, PasswordVerifier, SaltString};
use eid_wallet::credential::{encode_credential, parse_credential, Credential, Variant};
use eid_wallet::device::{device_id, new_device_id, platform_name};
use eid_wallet::pin::{hash, hash_with_salt, verify, PinError, OUTPUT_LEN, SALT_LEN};

fn salt16() -> Vec<u8> {
    (0u8..16).collect()
}

fn raw_argon2(alg: argon2::Algorithm, m: u32, t: u32, p: u32, pin: &[u8], salt: &[u8], len: usize) -> Vec<u8> {
    let params = argon2::Params::new(m, t, p, Some(len)).unwrap();
    let mut out = vec![0u8; len];
    argon2::Argon2::new(alg, argon2::Version::V0x13, params)
        .hash_password_into(pin, salt, &mut out)
        .unwrap();
    out
}

fn phc_of(pin: &[u8], salt: &[u8]) -> String {
    let salt = SaltString::encode_b64(salt).unwrap();
    argon2::Argon2::default().hash_password(pin, &salt).unwrap().to_string()
}

#[test]
fn hash_then_verify_same_pin() {
    let c1 = hash("1234").unwrap();
    assert_eq!(verify("1234", &c1), Ok(true));
}

#[test]
fn two_hashes_differ_and_both_verify() {
    let c1 = hash("1234").unwrap();
    let c2 = hash("1234").unwrap();
    assert_ne!(c1, c2);
    assert_eq!(verify("1234", &c1), Ok(true));
    assert_eq!(verify("1234", &c2), Ok(true));
}

#[test]
fn other_pin_does_not_verify() {
    let c1 = hash("1234").unwrap();
    assert_eq!(verify("0000", &c1), Ok(false));
    assert_eq!(verify("12345", &c1), Ok(false));
    assert_eq!(verify("", &c1), Ok(false));
}

#[test]
fn garbage_text_is_format_error() {
    assert_eq!(verify("1234", "not-a-real-credential"), Err(PinError::InvalidCredentialFormat));
    assert_eq!(verify("1234", ""), Err(PinError::InvalidCredentialFormat));
}

#[test]
fn empty_pin_is_accepted() {
    let c = hash("").unwrap();
    assert_eq!(verify("", &c), Ok(true));
    assert_eq!(verify("0", &c), Ok(false));
}

#[test]
fn hash_layout() {
    let c = hash("987654").unwrap();
    let prefix = "$argon2id$v=19$m=19456,t=2,p=1$";
    assert!(c.starts_with(prefix));
    let rest: Vec<&str> = c[prefix.len()..].split('$').collect();
    assert_eq!(rest.len(), 2);
    assert_eq!(rest[0].len(), (4 * SALT_LEN + 2) / 3);
    assert_eq!(rest[1].len(), (4 * OUTPUT_LEN + 2) / 3);
}

#[test]
fn hash_with_salt_is_the_argon2id_output() {
    let salt = salt16();
    let c = hash_with_salt("1234", salt.clone()).unwrap();
    assert_eq!(c, phc_of(b"1234", &salt));
    assert_eq!(hash_with_salt("1234", salt.clone()).unwrap(), c);
    assert_ne!(hash_with_salt("1235", salt).unwrap(), c);
}

#[test]
fn hash_with_short_salt_fails() {
    assert_eq!(hash_with_salt("1234", vec![1u8; 7]), Err(PinError::HashingError));
    assert!(hash_with_salt("1234", vec![1u8; 8]).is_ok());
}

#[test]
fn verify_reads_costs_and_variant_from_the_text() {
    let salt = vec![9u8; 8];
    for alg in [argon2::Algorithm::Argon2d, argon2::Algorithm::Argon2i, argon2::Algorithm::Argon2id] {
        let variant = match alg {
            argon2::Algorithm::Argon2d => Variant::Argon2d,
            argon2::Algorithm::Argon2i => Variant::Argon2i,
            argon2::Algorithm::Argon2id => Variant::Argon2id,
        };
        let out = raw_argon2(alg, 16, 1, 2, b"2468", &salt, 20);
        let c = Credential { variant, m_cost: 16, t_cost: 1, p_cost: 2, salt: salt.clone(), output: out };
        let text = encode_credential(&c);
        assert_eq!(verify("2468", &text), Ok(true));
        assert_eq!(verify("2469", &text), Ok(false));
    }
}

#[test]
fn encode_exact_text() {
    let c = Credential {
        variant: Variant::Argon2i,
        m_cost: 4096,
        t_cost: 3,
        p_cost: 10,
        salt: vec![0x00, 0x0f, 0xa0, 0xff, 1, 2, 3, 4],
        output: vec![0xde, 0xad, 0xbe, 0xef],
    };
    assert_eq!(encode_credential(&c), "$argon2i$v=19$m=4096,t=3,p=10$AA+g/wECAwQ$3q2+7w");
}

#[test]
fn parse_round_trip() {
    let text = "$argon2d$v=19$m=4294967295,t=7,p=16777215$AAECAwQFBgc$/+7dzA";
    let c = parse_credential(text).unwrap();
    assert_eq!(c.variant, Variant::Argon2d);
    assert_eq!((c.m_cost, c.t_cost, c.p_cost), (4294967295, 7, 16777215));
    assert_eq!(c.salt, vec![0, 1, 2, 3, 4, 5, 6, 7]);
    assert_eq!(c.output, vec![0xff, 0xee, 0xdd, 0xcc]);
    assert_eq!(encode_credential(&c), text);
}

#[test]
fn parse_rejects_malformed_texts() {
    let good = "$argon2id$v=19$m=64,t=1,p=1$AAECAwQFBgc$CgsMDQ";
    assert!(parse_credential(good).is_some());
    let bad = [
        "argon2id$v=19$m=64,t=1,p=1$AAECAwQFBgc$CgsMDQ",
        "$argon2x$v=19$m=64,t=1,p=1$AAECAwQFBgc$CgsMDQ",
        "$argon2id$v=16$m=64,t=1,p=1$AAECAwQFBgc$CgsMDQ",
        "$argon2id$v=19$m=064,t=1,p=1$AAECAwQFBgc$CgsMDQ",
        "$argon2id$v=19$m=64,t=1$AAECAwQFBgc$CgsMDQ",
        "$argon2id$v=19$t=1,m=64,p=1$AAECAwQFBgc$CgsMDQ",
        "$argon2id$v=19$m=4294967296,t=1,p=1$AAECAwQFBgc$CgsMDQ",
        "$argon2id$v=19$m=64,t=0,p=1$AAECAwQFBgc$CgsMDQ",
        "$argon2id$v=19$m=64,t=1,p=0$AAECAwQFBgc$CgsMDQ",
        "$argon2id$v=19$m=64,t=1,p=9$AAECAwQFBgc$CgsMDQ",
        "$argon2id$v=19$m=7,t=1,p=1$AAECAwQFBgc$CgsMDQ",
        "$argon2id$v=19$m=64,t=1,p=1$AAECAwQFBg$CgsMDQ",
        "$argon2id$v=19$m=64,t=1,p=1$AAECAwQFBgd$CgsMDQ",
        "$argon2id$v=19$m=64,t=1,p=1$AAECAwQFBgcAA$CgsMDQ",
        "$argon2id$v=19$m=64,t=1,p=1$AAECAwQFBg-c$CgsMDQ",
        "$argon2id$v=19$m=64,t=1,p=1$AAECAwQFBgc=$CgsMDQ",
        "$argon2id$v=19$m=64,t=1,p=1$AAECAwQFBgc$CgsM",
        "$argon2id$v=19$m=64,t=1,p=1$AAECAwQFBgc$CgsMDQ$",
        "$argon2id$v=19$m=64,t=1,p=1$AAECAwQFBgc",
        "$argon2id$v=19$m=+64,t=1,p=1$AAECAwQFBgc$CgsMDQ",
    ];
    for text in bad {
        assert!(parse_credential(text).is_none(), "{}", text);
        assert_eq!(verify("1234", text), Err(PinError::InvalidCredentialFormat), "{}", text);
    }
}

fn has_v4_shape(s: &str) -> bool {
    let c: Vec<char> = s.chars().collect();
    c.len() == 36
        && c.iter().enumerate().all(|(i, ch)| {
            if [8, 13, 18, 23].contains(&i) {
                *ch == '-'
            } else {
                ch.is_ascii_digit() || ('a'..='f').contains(ch)
            }
        })
        && c[14] == '4'
        && ['8', '9', 'a', 'b'].contains(&c[19])
}

#[test]
fn device_id_prefers_supplied_value() {
    assert_eq!(device_id(Some("phone-7".to_string())), Some("phone-7".to_string()));
    let a = device_id(None).unwrap();
    let b = device_id(None).unwrap();
    assert!(has_v4_shape(&a), "{}", a);
    assert!(has_v4_shape(&b), "{}", b);
    assert_ne!(a, b);
}

#[test]
fn new_device_id_exact_text() {
    let bytes: Vec<u8> = (0u8..16).collect();
    assert_eq!(new_device_id(&bytes), "00010203-0405-4607-8809-0a0b0c0d0e0f");
    assert_eq!(new_device_id(&vec![0xffu8; 16]), "ffffffff-ffff-4fff-bfff-ffffffffffff");
    assert_eq!(new_device_id(&vec![0u8; 16]), "00000000-0000-4000-8000-000000000000");
}

#[test]
fn platform_names() {
    for os in ["android", "ios", "windows", "macos", "linux"] {
        assert_eq!(platform_name(os), os);
    }
    assert_eq!(platform_name("freebsd"), "unknown");
    assert_eq!(platform_name(""), "unknown");
}

#[test]
fn credentials_of_the_argon2_crate_verify() {
    let text = phc_of(b"1234", &[7u8; 16]);
    assert_eq!(verify("1234", &text), Ok(true));
    assert_eq!(verify("4321", &text), Ok(false));
}

#[test]
fn credentials_verify_with_the_argon2_crate() {
    let text = hash("5678").unwrap();
    let parsed = PasswordHash::new(&text).unwrap();
    assert!(argon2::Argon2::default().verify_password(b"5678", &parsed).is_ok());
    assert!(argon2::Argon2::default().verify_password(b"5679", &parsed).is_err());
}
