//! The calls this library makes into std, argon2, uuid and the operating system's
//! random source, each with the contract relied on.

use vstd::prelude::*;
use argon2::password_hash::rand_core::{OsRng, RngCore};
use crate::credential::Variant;
use crate::device::{uuid_text, v4_bytes};

verus! {

/// Appends one character.
/// Relies on std's `String::push`: the character is added at the end.
#[verifier::external_body]
pub(crate) fn push_char(s: &mut String, c: char)
    ensures
        final(s)@ == old(s)@.push(c),
{
    s.push(c)
}

/// Draws `len` bytes from the operating system.
/// Relies on rand_core's `OsRng::try_fill_bytes`: it fills the whole buffer or
/// reports an error. Nothing is known of the bytes.
#[verifier::external_body]
pub(crate) fn random_bytes(len: usize) -> (r: Option<Vec<u8>>)
    ensures
        r matches Some(v) ==> v@.len() == len,
{
    let mut buf = vec![0u8; len];
    match OsRng.try_fill_bytes(&mut buf) {
        Ok(()) => Some(buf),
        Err(_) => None,
    }
}

/// Byte `i` of the `len`-byte output of Argon2 (version 0x13) of the given
/// variant and costs for a password and salt.
pub uninterp spec fn argon2_byte(
    variant: Variant,
    m_cost: u32,
    t_cost: u32,
    p_cost: u32,
    password: Seq<u8>,
    salt: Seq<u8>,
    len: nat,
    i: int,
) -> u8;

/// The `len`-byte output of Argon2 (version 0x13).
pub open spec fn argon2_output(
    variant: Variant,
    m_cost: u32,
    t_cost: u32,
    p_cost: u32,
    password: Seq<u8>,
    salt: Seq<u8>,
    len: nat,
) -> Seq<u8> {
    Seq::new(len, |i: int| argon2_byte(variant, m_cost, t_cost, p_cost, password, salt, len, i))
}

/// The costs and lengths that argon2's `Params::new` and
/// `Argon2::hash_password_into` accept.
pub open spec fn argon2_accepts(
    m_cost: u32,
    t_cost: u32,
    p_cost: u32,
    password_len: nat,
    salt_len: nat,
    out_len: nat,
) -> bool {
    &&& m_cost >= 8
    &&& m_cost >= 8 * p_cost
    &&& t_cost >= 1
    &&& 1 <= p_cost <= 0xFF_FFFF
    &&& password_len <= 0xFFFF_FFFF
    &&& 8 <= salt_len <= 0xFFFF_FFFF
    &&& 4 <= out_len <= 0xFFFF_FFFF
}

/// Derives `len` bytes from a password and salt.
/// Relies on argon2's `Params::new` and `Argon2::hash_password_into` with
/// version 0x13: on arguments in the ranges they check they return `Ok`, and
/// the bytes written depend on the arguments alone.
#[verifier::external_body]
pub(crate) fn argon2_derive(
    variant: Variant,
    m_cost: u32,
    t_cost: u32,
    p_cost: u32,
    password: &[u8],
    salt: &[u8],
    len: usize,
) -> (r: Vec<u8>)
    requires
        argon2_accepts(m_cost, t_cost, p_cost, password@.len(), salt@.len(), len as nat),
    ensures
        r@.len() == len,
        forall|i: int|
            0 <= i < len ==> r@[i] == argon2_byte(
                variant,
                m_cost,
                t_cost,
                p_cost,
                password@,
                salt@,
                len as nat,
                i,
            ),
{
    let algorithm = match variant {
        Variant::Argon2d => argon2::Algorithm::Argon2d,
        Variant::Argon2i => argon2::Algorithm::Argon2i,
        Variant::Argon2id => argon2::Algorithm::Argon2id,
    };
    let params = argon2::Params::new(m_cost, t_cost, p_cost, Some(len)).unwrap();
    let mut out = vec![0u8; len];
    argon2::Argon2::new(algorithm, argon2::Version::V0x13, params)
        .hash_password_into(password, salt, &mut out).unwrap();
    out
}

/// The hyphenated text of the version 4 UUID made from 16 random bytes.
/// Relies on uuid's `Builder::from_random_bytes`, which sets the high nibble
/// of byte 6 to 4 and the top two bits of byte 8 to `10`, and on the
/// `to_string` of `Uuid`, which writes the hyphenated lower-case form.
#[verifier::external_body]
pub(crate) fn uuid_text_of(random: &Vec<u8>) -> (r: String)
    requires
        random@.len() == 16,
    ensures
        r@ == uuid_text(v4_bytes(random@)),
{
    let bytes: [u8; 16] = random.as_slice().try_into().unwrap();
    uuid::Builder::from_random_bytes(bytes).into_uuid().to_string()
}

} // verus!
