//! The device identifier and the platform name handed to the front-end.

use vstd::prelude::*;
use crate::outside::{random_bytes, uuid_text_of};
use crate::text::{chars_of, push_all, same_chars};

verus! {

/// The lower-case hexadecimal digit for `v < 16`.
pub open spec fn hex_digit(v: nat) -> char {
    if v < 10 {
        ((v + 48) as u8) as char
    } else {
        ((v + 87) as u8) as char
    }
}

/// The bytes of a version 4 UUID made from random bytes `b`: the version
/// nibble of byte 6 set to 4 and the variant bits of byte 8 set to `10`.
pub open spec fn v4_bytes(b: Seq<u8>) -> Seq<u8> {
    b.update(6, (b[6] & 0x0f) | 0x40).update(8, (b[8] & 0x3f) | 0x80)
}

pub open spec fn is_hyphen_position(i: int) -> bool {
    i == 8 || i == 13 || i == 18 || i == 23
}

/// The hyphenated lower-case text of a UUID's 16 bytes: 8, 4, 4, 4 and 12
/// hexadecimal digits, high nibble first, separated by `-`.
pub open spec fn uuid_text(b: Seq<u8>) -> Seq<char> {
    Seq::new(
        36,
        |i: int|
            if is_hyphen_position(i) {
                '-'
            } else {
                let d = if i < 8 {
                    i
                } else if i < 13 {
                    i - 1
                } else if i < 18 {
                    i - 2
                } else if i < 23 {
                    i - 3
                } else {
                    i - 4
                };
                if d % 2 == 0 {
                    hex_digit((b[d / 2] / 16) as nat)
                } else {
                    hex_digit((b[d / 2] % 16) as nat)
                }
            },
    )
}

/// The shape of a version 4 UUID text.
pub open spec fn is_v4_text(s: Seq<char>) -> bool {
    &&& s.len() == 36
    &&& forall|i: int| 0 <= i < 36 && is_hyphen_position(i) ==> s[i] == '-'
    &&& forall|i: int|
        0 <= i < 36 && !is_hyphen_position(i) ==> ('0' <= #[trigger] s[i] <= '9' || 'a' <= s[i]
            <= 'f')
    &&& s[14] == '4'
    &&& (s[19] == '8' || s[19] == '9' || s[19] == 'a' || s[19] == 'b')
}

proof fn lemma_v4_text(b: Seq<u8>)
    requires
        b.len() == 16,
    ensures
        is_v4_text(uuid_text(v4_bytes(b))),
{
    let v = v4_bytes(b);
    let t = uuid_text(v);
    let x6 = b[6];
    let x8 = b[8];
    assert(((x6 & 0x0f) | 0x40) / 16 == 4) by (bit_vector);
    assert(8 <= ((x8 & 0x3f) | 0x80) / 16 <= 11) by (bit_vector);
    assert(v[6] == (x6 & 0x0f) | 0x40);
    assert(v[8] == (x8 & 0x3f) | 0x80);
    assert(t[14] == hex_digit((v[6] / 16) as nat));
    assert(t[19] == hex_digit((v[8] / 16) as nat));
    assert forall|i: int| 0 <= i < 36 && !is_hyphen_position(i) implies ('0' <= #[trigger] t[i] <= '9'
        || 'a' <= t[i] <= 'f') by {
        let d = if i < 8 {
            i
        } else if i < 13 {
            i - 1
        } else if i < 18 {
            i - 2
        } else if i < 23 {
            i - 3
        } else {
            i - 4
        };
        assert(0 <= d / 2 < 16);
        assert(v[d / 2] / 16 < 16 && v[d / 2] % 16 < 16);
    }
}

/// The device identifier made from 16 random bytes: the text of the
/// version 4 UUID they give.
pub fn new_device_id(random: &Vec<u8>) -> (r: String)
    requires
        random@.len() == 16,
    ensures
        r@ == uuid_text(v4_bytes(random@)),
        is_v4_text(r@),
{
    proof {
        lemma_v4_text(random@);
    }
    uuid_text_of(random)
}

/// The identifier supplied from outside, or else a fresh random one; `None`
/// where none was supplied and the random source failed.
pub fn device_id(supplied: Option<String>) -> (r: Option<String>)
    ensures
        supplied matches Some(s) ==> r matches Some(x) && x@ == s@,
        supplied is None ==> (r matches Some(x) ==> is_v4_text(x@)),
{
    match supplied {
        Some(s) => Some(s),
        None => match random_bytes(16) {
            Some(random) => Some(new_device_id(&random)),
            None => None,
        },
    }
}

pub open spec fn platform_names() -> Seq<Seq<char>> {
    seq![
        seq!['a', 'n', 'd', 'r', 'o', 'i', 'd'],
        seq!['i', 'o', 's'],
        seq!['w', 'i', 'n', 'd', 'o', 'w', 's'],
        seq!['m', 'a', 'c', 'o', 's'],
        seq!['l', 'i', 'n', 'u', 'x'],
    ]
}

pub open spec fn unknown_platform() -> Seq<char> {
    seq!['u', 'n', 'k', 'n', 'o', 'w', 'n']
}

/// The name reported for the operating system `os`: itself where it is one
/// of the named platforms, else `unknown`.
pub fn platform_name(os: &str) -> (r: String)
    ensures
        platform_names().contains(os@) ==> r@ == os@,
        !platform_names().contains(os@) ==> r@ == unknown_platform(),
{
    let known = vec![
        vec!['a', 'n', 'd', 'r', 'o', 'i', 'd'],
        vec!['i', 'o', 's'],
        vec!['w', 'i', 'n', 'd', 'o', 'w', 's'],
        vec!['m', 'a', 'c', 'o', 's'],
        vec!['l', 'i', 'n', 'u', 'x'],
    ];
    assert(known@.len() == 5);
    let ghost names = platform_names();
    assert(forall|k: int| 0 <= k < 5 ==> known@[k]@ == #[trigger] names[k]);
    let name = chars_of(os);
    let mut i: usize = 0;
    while i < known.len()
        invariant
            known@.len() == 5,
            names == platform_names(),
            forall|k: int| 0 <= k < 5 ==> known@[k]@ == #[trigger] names[k],
            name@ == os@,
            i <= 5,
            forall|k: int| 0 <= k < i ==> names[k] != os@,
        decreases 5 - i,
    {
        if same_chars(&name, &known[i]) {
            let mut r = String::new();
            push_all(&mut r, &name);
            assert(r@ =~= os@);
            return r;
        }
        i = i + 1;
    }
    let mut r = String::new();
    push_all(&mut r, &vec!['u', 'n', 'k', 'n', 'o', 'w', 'n']);
    assert(r@ =~= unknown_platform());
    r
}

} // verus!
