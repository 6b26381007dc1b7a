//! Hashing a PIN into a credential text and checking a PIN against one.

use vstd::prelude::*;
use vstd::string::StringSliceAdditionalSpecFns;
use crate::credential::{
    decode, encode, encode_credential, lemma_encode_injective, lemma_round_trip, parse_credential,
    Credential, CredentialView, Variant, MAX_SALT_LEN, MIN_SALT_LEN,
};
use crate::outside::{argon2_derive, argon2_output, random_bytes};

verus! {

/// Memory cost of new credentials, in KiB.
pub const DEFAULT_M_COST: u32 = 19456;

/// Iterations of new credentials.
pub const DEFAULT_T_COST: u32 = 2;

/// Lanes of new credentials.
pub const DEFAULT_P_COST: u32 = 1;

/// Salt bytes drawn for a new credential.
pub const SALT_LEN: usize = 16;

/// Output bytes of a new credential.
pub const OUTPUT_LEN: usize = 32;

/// The longest PIN, in UTF-8 bytes, that the derivation takes.
pub const MAX_PIN_LEN: usize = 0xFFFF_FFFF;

#[derive(Clone, Copy, Debug, PartialEq, Eq, Structural)]
pub enum PinError {
    /// The random source or the derivation failed.
    HashingError,
    /// The text is not the text of a well-formed credential.
    InvalidCredentialFormat,
}

/// What the credential's parameters derive from `pin`.
pub open spec fn derive_for(pin: Seq<u8>, c: CredentialView) -> Seq<u8> {
    argon2_output(c.variant, c.m_cost, c.t_cost, c.p_cost, pin, c.salt, c.output.len())
}

/// The credential that enrolling `pin` with `salt` produces: Argon2id with
/// the default costs and a `OUTPUT_LEN`-byte output.
pub open spec fn enrolled(pin: Seq<u8>, salt: Seq<u8>) -> CredentialView {
    CredentialView {
        variant: Variant::Argon2id,
        m_cost: DEFAULT_M_COST,
        t_cost: DEFAULT_T_COST,
        p_cost: DEFAULT_P_COST,
        salt: salt,
        output: argon2_output(
            Variant::Argon2id,
            DEFAULT_M_COST,
            DEFAULT_T_COST,
            DEFAULT_P_COST,
            pin,
            salt,
            OUTPUT_LEN as nat,
        ),
    }
}

pub open spec fn salt_ok(salt: Seq<u8>) -> bool {
    MIN_SALT_LEN <= salt.len() <= MAX_SALT_LEN
}

/// The outcome of checking `pin` against the credential text `text`.
pub open spec fn verify_outcome(pin: Seq<u8>, text: Seq<char>) -> Result<bool, PinError> {
    match decode(text) {
        None => Err(PinError::InvalidCredentialFormat),
        Some(c) => if pin.len() <= MAX_PIN_LEN {
            Ok(derive_for(pin, c) == c.output)
        } else {
            Err(PinError::HashingError)
        },
    }
}

/// Compares two byte strings, reading every byte whatever the earlier ones held.
fn bytes_equal(a: &Vec<u8>, b: &Vec<u8>) -> (r: bool)
    ensures
        r == (a@ == b@),
{
    if a.len() != b.len() {
        return false;
    }
    let mut diff: u8 = 0;
    let mut i: usize = 0;
    while i < a.len()
        invariant
            a@.len() == b@.len(),
            i <= a@.len(),
            diff == 0 <==> forall|k: int| 0 <= k < i ==> a@[k] == b@[k],
        decreases a@.len() - i,
    {
        let x = a[i];
        let y = b[i];
        let next: u8 = diff | (x ^ y);
        assert(next == 0 <==> (diff == 0 && x == y)) by (bit_vector)
            requires
                next == diff | (x ^ y),
        ;
        diff = next;
        i = i + 1;
    }
    assert(diff == 0 ==> a@ =~= b@);
    diff == 0
}

/// Builds the credential text for `pin` with the given salt.
pub fn hash_with_salt(pin: &str, salt: Vec<u8>) -> (r: Result<String, PinError>)
    ensures
        match r {
            Ok(s) => salt_ok(salt@) && pin.spec_bytes().len() <= MAX_PIN_LEN && s@ == encode(
                enrolled(pin.spec_bytes(), salt@),
            ),
            Err(e) => !(salt_ok(salt@) && pin.spec_bytes().len() <= MAX_PIN_LEN) && e
                == PinError::HashingError,
        },
{
    let pw = pin.as_bytes();
    if salt.len() < MIN_SALT_LEN || salt.len() > MAX_SALT_LEN || pw.len() > MAX_PIN_LEN {
        return Err(PinError::HashingError);
    }
    let output = argon2_derive(
        Variant::Argon2id,
        DEFAULT_M_COST,
        DEFAULT_T_COST,
        DEFAULT_P_COST,
        pw,
        salt.as_slice(),
        OUTPUT_LEN,
    );
    assert(output@ =~= argon2_output(
        Variant::Argon2id,
        DEFAULT_M_COST,
        DEFAULT_T_COST,
        DEFAULT_P_COST,
        pw@,
        salt@,
        OUTPUT_LEN as nat,
    ));
    let c = Credential {
        variant: Variant::Argon2id,
        m_cost: DEFAULT_M_COST,
        t_cost: DEFAULT_T_COST,
        p_cost: DEFAULT_P_COST,
        salt,
        output,
    };
    assert(c@ == enrolled(pin.spec_bytes(), salt@));
    Ok(encode_credential(&c))
}

/// Hashes a PIN into a new credential text under a fresh random salt.
pub fn hash(pin: &str) -> (r: Result<String, PinError>)
    ensures
        match r {
            Ok(s) => exists|salt: Seq<u8>|
                salt.len() == SALT_LEN && s@ == encode(#[trigger] enrolled(pin.spec_bytes(), salt)),
            Err(e) => e == PinError::HashingError,
        },
        pin.spec_bytes().len() > MAX_PIN_LEN ==> r is Err,
{
    match random_bytes(SALT_LEN) {
        Some(salt) => hash_with_salt(pin, salt),
        None => Err(PinError::HashingError),
    }
}

/// Checks `pin` against a credential text. A wrong PIN is `Ok(false)`; a
/// text that is no credential is `InvalidCredentialFormat`.
pub fn verify(pin: &str, credential: &str) -> (r: Result<bool, PinError>)
    ensures
        r == verify_outcome(pin.spec_bytes(), credential@),
{
    let c = match parse_credential(credential) {
        Some(c) => c,
        None => {
            return Err(PinError::InvalidCredentialFormat);
        },
    };
    let pw = pin.as_bytes();
    if pw.len() > MAX_PIN_LEN {
        return Err(PinError::HashingError);
    }
    let derived = argon2_derive(
        c.variant,
        c.m_cost,
        c.t_cost,
        c.p_cost,
        pw,
        c.salt.as_slice(),
        c.output.len(),
    );
    assert(derived@ =~= derive_for(pw@, c@));
    Ok(bytes_equal(&derived, &c.output))
}

/// A PIN verifies against the credential that hashing it produced.
pub proof fn lemma_hash_then_verify(pin: Seq<u8>, salt: Seq<u8>)
    requires
        salt_ok(salt),
        pin.len() <= MAX_PIN_LEN,
    ensures
        verify_outcome(pin, encode(enrolled(pin, salt))) == Ok::<bool, PinError>(true),
{
    lemma_round_trip(enrolled(pin, salt));
}

/// A PIN verifies against the credential of another PIN only where the
/// derivation gives both PINs the same output under that salt and those costs.
pub proof fn lemma_match_needs_equal_output(p1: Seq<u8>, p2: Seq<u8>, salt: Seq<u8>)
    requires
        salt_ok(salt),
        verify_outcome(p1, encode(enrolled(p2, salt))) == Ok::<bool, PinError>(true),
    ensures
        enrolled(p1, salt).output == enrolled(p2, salt).output,
{
    lemma_round_trip(enrolled(p2, salt));
}

/// Two enrolments of one PIN under different salts give different texts,
/// each decoding to its own salt, and the PIN verifies against both.
pub proof fn lemma_distinct_salts(pin: Seq<u8>, s1: Seq<u8>, s2: Seq<u8>)
    requires
        salt_ok(s1),
        salt_ok(s2),
        s1 != s2,
        pin.len() <= MAX_PIN_LEN,
    ensures
        encode(enrolled(pin, s1)) != encode(enrolled(pin, s2)),
        decode(encode(enrolled(pin, s1))) matches Some(c) && c.salt == s1,
        decode(encode(enrolled(pin, s2))) matches Some(c) && c.salt == s2,
        verify_outcome(pin, encode(enrolled(pin, s1))) == Ok::<bool, PinError>(true),
        verify_outcome(pin, encode(enrolled(pin, s2))) == Ok::<bool, PinError>(true),
{
    if encode(enrolled(pin, s1)) == encode(enrolled(pin, s2)) {
        lemma_encode_injective(enrolled(pin, s1), enrolled(pin, s2));
    }
    lemma_round_trip(enrolled(pin, s1));
    lemma_round_trip(enrolled(pin, s2));
    lemma_hash_then_verify(pin, s1);
    lemma_hash_then_verify(pin, s2);
}

/// A PIN whose derived output differs from that of the enrolled PIN under the
/// credential's salt and costs is a normal mismatch: `Ok(false)`, no error.
pub proof fn lemma_other_pin_rejected(p1: Seq<u8>, p2: Seq<u8>, salt: Seq<u8>)
    requires
        salt_ok(salt),
        p1.len() <= MAX_PIN_LEN,
        enrolled(p1, salt).output != enrolled(p2, salt).output,
    ensures
        verify_outcome(p1, encode(enrolled(p2, salt))) == Ok::<bool, PinError>(false),
{
    lemma_round_trip(enrolled(p2, salt));
}

/// Every well-formed credential text, whatever its variant and costs, is
/// checked under exactly the variant, costs, salt and output it carries.
pub proof fn lemma_credential_carries_its_parameters(pin: Seq<u8>, c: CredentialView)
    requires
        c.wf(),
        pin.len() <= MAX_PIN_LEN,
    ensures
        verify_outcome(pin, encode(c)) == Ok::<bool, PinError>(
            argon2_output(c.variant, c.m_cost, c.t_cost, c.p_cost, pin, c.salt, c.output.len())
                == c.output,
        ),
{
    lemma_round_trip(c);
}

/// A text that is the text of no well-formed credential is reported as
/// `InvalidCredentialFormat`, never as a mismatch.
pub proof fn lemma_malformed_is_error(pin: Seq<u8>, text: Seq<char>)
    requires
        forall|c: CredentialView| c.wf() ==> encode(c) != text,
    ensures
        verify_outcome(pin, text) == Err::<bool, PinError>(PinError::InvalidCredentialFormat),
{
}

} // verus!
