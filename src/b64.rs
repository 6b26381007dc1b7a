//! Base64 without padding, in the standard alphabet, as credential texts
//! carry salts and outputs.

use vstd::prelude::*;
use crate::outside::push_char;

verus! {

/// The character for a six-bit value `v < 64`.
pub open spec fn b64_char(v: nat) -> char {
    if v < 26 {
        ((v + 65) as u8) as char
    } else if v < 52 {
        ((v + 71) as u8) as char
    } else if v < 62 {
        ((v - 4) as u8) as char
    } else if v == 62 {
        '+'
    } else {
        '/'
    }
}

/// The number of characters for `n` bytes: four per three, the last group
/// cut short.
pub open spec fn b64_len(n: nat) -> nat {
    (4 * n + 2) / 3
}

/// Byte `j`, or zero past the end.
pub open spec fn byte_at(b: Seq<u8>, j: int) -> nat {
    if 0 <= j < b.len() {
        b[j] as nat
    } else {
        0
    }
}

/// The six-bit value written at character `i`.
pub open spec fn sextet(b: Seq<u8>, i: int) -> nat {
    let g = i / 4;
    let b0 = byte_at(b, 3 * g);
    let b1 = byte_at(b, 3 * g + 1);
    let b2 = byte_at(b, 3 * g + 2);
    if i % 4 == 0 {
        b0 / 4
    } else if i % 4 == 1 {
        (b0 % 4) * 16 + b1 / 16
    } else if i % 4 == 2 {
        (b1 % 16) * 4 + b2 / 64
    } else {
        b2 % 64
    }
}

/// The Base64 text of `b`, without padding.
pub open spec fn b64(b: Seq<u8>) -> Seq<char> {
    Seq::new(b64_len(b.len()), |i: int| b64_char(sextet(b, i)))
}

pub proof fn lemma_b64_char(v: nat)
    requires
        v < 64,
    ensures
        b64_char(v) != '$',
        b64_char(v) != ',',
        forall|w: nat| w < 64 && b64_char(w) == b64_char(v) ==> w == v,
{
}

pub proof fn lemma_sextet_bound(b: Seq<u8>, i: int)
    ensures
        sextet(b, i) < 64,
{
    let g = i / 4;
    let b0 = byte_at(b, 3 * g);
    let b1 = byte_at(b, 3 * g + 1);
    let b2 = byte_at(b, 3 * g + 2);
    assert(b0 < 256 && b1 < 256 && b2 < 256);
    assert((b0 % 4) * 16 + b1 / 16 < 64) by (nonlinear_arith)
        requires
            b0 < 256,
            b1 < 256,
    ;
    assert((b1 % 16) * 4 + b2 / 64 < 64) by (nonlinear_arith)
        requires
            b1 < 256,
            b2 < 256,
    ;
}

pub proof fn lemma_b64_free(b: Seq<u8>, x: char)
    requires
        x == '$' || x == ',',
    ensures
        !b64(b).contains(x),
{
    if b64(b).contains(x) {
        let i = choose|i: int| 0 <= i < b64(b).len() && b64(b)[i] == x;
        lemma_sextet_bound(b, i);
        lemma_b64_char(sextet(b, i));
    }
}

proof fn lemma_b64_len(n: nat)
    ensures
        n % 3 == 0 ==> b64_len(n) == 4 * (n / 3),
        n % 3 == 1 ==> b64_len(n) == 4 * (n / 3) + 2,
        n % 3 == 2 ==> b64_len(n) == 4 * (n / 3) + 3,
        b64_len(n) % 4 != 1,
        (3 * b64_len(n)) / 4 == n,
{
}

proof fn lemma_b64_len_injective(n: nat, m: nat)
    requires
        b64_len(n) == b64_len(m),
    ensures
        n == m,
{
    lemma_b64_len(n);
    lemma_b64_len(m);
}

proof fn lemma_split_base(x1: nat, y1: nat, x2: nat, y2: nat, base: nat)
    requires
        base > 0,
        y1 < base,
        y2 < base,
        x1 * base + y1 == x2 * base + y2,
    ensures
        x1 == x2,
        y1 == y2,
{
    if x1 < x2 {
        assert(x1 * base + base <= x2 * base) by (nonlinear_arith)
            requires
                x1 < x2,
                base > 0,
        ;
    } else if x2 < x1 {
        assert(x2 * base + base <= x1 * base) by (nonlinear_arith)
            requires
                x2 < x1,
                base > 0,
        ;
    }
}

/// Different byte strings have different texts.
pub proof fn lemma_b64_injective(a: Seq<u8>, b: Seq<u8>)
    requires
        b64(a) == b64(b),
    ensures
        a == b,
{
    assert(b64(a).len() == b64_len(a.len()));
    assert(b64(b).len() == b64_len(b.len()));
    lemma_b64_len_injective(a.len(), b.len());
    let n = a.len();
    lemma_b64_len(n);
    assert forall|i: int| 0 <= i < b64_len(n) implies sextet(a, i) == sextet(b, i) by {
        assert(b64(a)[i] == b64(b)[i]);
        assert(b64(a)[i] == b64_char(sextet(a, i)));
        assert(b64(b)[i] == b64_char(sextet(b, i)));
        lemma_sextet_bound(a, i);
        lemma_sextet_bound(b, i);
        lemma_b64_char(sextet(a, i));
    }
    assert forall|j: int| 0 <= j < n implies a[j] == b[j] by {
        let g = j / 3;
        let k = j % 3;
        assert(3 * g + k == j);
        assert(4 * g + k + 1 < b64_len(n)) by {
            assert(n >= 3 * g + k + 1);
            if n % 3 == 0 {
                assert(n / 3 >= g + 1);
            } else {
                assert(n / 3 >= g);
                if n / 3 == g {
                    assert(n % 3 > k);
                }
            }
        }
        let i0 = 4 * g;
        let i1 = 4 * g + 1;
        let i2 = 4 * g + 2;
        let i3 = 4 * g + 3;
        assert(i0 / 4 == g && i0 % 4 == 0);
        assert(i1 / 4 == g && i1 % 4 == 1);
        assert(i2 / 4 == g && i2 % 4 == 2);
        assert(i3 / 4 == g && i3 % 4 == 3);
        let a0 = byte_at(a, 3 * g);
        let a1 = byte_at(a, 3 * g + 1);
        let a2 = byte_at(a, 3 * g + 2);
        let c0 = byte_at(b, 3 * g);
        let c1 = byte_at(b, 3 * g + 1);
        let c2 = byte_at(b, 3 * g + 2);
        assert(a0 < 256 && a1 < 256 && a2 < 256 && c0 < 256 && c1 < 256 && c2 < 256);
        if k == 0 {
            assert(sextet(a, i0) == sextet(b, i0));
            assert(sextet(a, i1) == sextet(b, i1));
            lemma_split_base(a0 % 4, a1 / 16, c0 % 4, c1 / 16, 16);
            assert(a0 == (a0 / 4) * 4 + a0 % 4);
            assert(c0 == (c0 / 4) * 4 + c0 % 4);
        } else if k == 1 {
            assert(sextet(a, i1) == sextet(b, i1));
            assert(sextet(a, i2) == sextet(b, i2));
            lemma_split_base(a0 % 4, a1 / 16, c0 % 4, c1 / 16, 16);
            lemma_split_base(a1 % 16, a2 / 64, c1 % 16, c2 / 64, 4);
            assert(a1 == (a1 / 16) * 16 + a1 % 16);
            assert(c1 == (c1 / 16) * 16 + c1 % 16);
        } else {
            assert(sextet(a, i2) == sextet(b, i2));
            assert(sextet(a, i3) == sextet(b, i3));
            lemma_split_base(a1 % 16, a2 / 64, c1 % 16, c2 / 64, 4);
            assert(a2 == (a2 / 64) * 64 + a2 % 64);
            assert(c2 == (c2 / 64) * 64 + c2 % 64);
        }
    }
    assert(a =~= b);
}

/// Byte `j` as read back from six-bit values `sx`.
pub open spec fn byte_from(sx: Seq<u8>, j: int) -> nat {
    let g = j / 3;
    if j % 3 == 0 {
        (sx[4 * g] as nat) * 4 + (sx[4 * g + 1] as nat) / 16
    } else if j % 3 == 1 {
        ((sx[4 * g + 1] as nat) % 16) * 16 + (sx[4 * g + 2] as nat) / 4
    } else {
        ((sx[4 * g + 2] as nat) % 4) * 64 + (sx[4 * g + 3] as nat)
    }
}

/// Six-bit values whose unused low bits at the end are zero.
pub open spec fn canonical_tail(sx: Seq<u8>) -> bool {
    &&& sx.len() % 4 == 2 ==> sx[sx.len() - 1] % 16 == 0
    &&& sx.len() % 4 == 3 ==> sx[sx.len() - 1] % 4 == 0
}

proof fn lemma_decoded(sx: Seq<u8>, out: Seq<u8>)
    requires
        sx.len() % 4 != 1,
        forall|i: int| 0 <= i < sx.len() ==> sx[i] < 64,
        canonical_tail(sx),
        out.len() == (3 * sx.len()) / 4,
        forall|j: int| 0 <= j < out.len() ==> out[j] as nat == byte_from(sx, j),
    ensures
        forall|i: int| 0 <= i < sx.len() ==> sextet(out, i) == sx[i] as nat,
{
    let len = sx.len();
    let n = out.len();
    assert forall|i: int| 0 <= i < len implies sextet(out, i) == sx[i] as nat by {
        let g = i / 4;
        let k = i % 4;
        assert(4 * g + k == i);
        assert(4 * g + 1 < len);
        assert(3 * g < n);
        assert(4 * g + 2 < len <==> 3 * g + 1 < n);
        assert(4 * g + 3 < len <==> 3 * g + 2 < n);
        let j0 = 3 * g;
        let j1 = 3 * g + 1;
        let j2 = 3 * g + 2;
        assert(j0 / 3 == g && j0 % 3 == 0);
        assert(j1 / 3 == g && j1 % 3 == 1);
        assert(j2 / 3 == g && j2 % 3 == 2);
        let s0 = sx[4 * g] as nat;
        let s1 = sx[4 * g + 1] as nat;
        assert(s0 < 64 && s1 < 64);
        let b0 = byte_at(out, j0);
        let b1 = byte_at(out, j1);
        let b2 = byte_at(out, j2);
        assert(b0 == s0 * 4 + s1 / 16);
        if k == 0 {
            assert(b0 / 4 == s0);
        } else if k == 1 {
            assert(b0 % 4 == s1 / 16);
            if 3 * g + 1 < n {
                let s2 = sx[4 * g + 2] as nat;
                assert(s2 < 64);
                assert(b1 == (s1 % 16) * 16 + s2 / 4);
                assert(b1 / 16 == s1 % 16);
            } else {
                assert(len == 4 * g + 2);
                assert(b1 == 0);
                assert(s1 % 16 == 0);
            }
            assert((s1 / 16) * 16 + s1 % 16 == s1);
        } else {
            let s2 = sx[4 * g + 2] as nat;
            assert(s2 < 64);
            assert(3 * g + 1 < n);
            assert(b1 == (s1 % 16) * 16 + s2 / 4);
            assert(b1 % 16 == s2 / 4);
            if k == 2 {
                if 3 * g + 2 < n {
                    let s3 = sx[4 * g + 3] as nat;
                    assert(s3 < 64);
                    assert(b2 == (s2 % 4) * 64 + s3);
                    assert(b2 / 64 == s2 % 4);
                } else {
                    assert(len == 4 * g + 3);
                    assert(b2 == 0);
                    assert(s2 % 4 == 0);
                }
                assert((s2 / 4) * 4 + s2 % 4 == s2);
            } else {
                let s3 = sx[4 * g + 3] as nat;
                assert(s3 < 64);
                assert(3 * g + 2 < n);
                assert(b2 == (s2 % 4) * 64 + s3);
                assert(b2 % 64 == s3);
            }
        }
    }
}

fn b64_of(v: u8) -> (c: char)
    requires
        v < 64,
    ensures
        c == b64_char(v as nat),
{
    if v < 26 {
        (v + 65) as char
    } else if v < 52 {
        (v + 71) as char
    } else if v < 62 {
        (v - 4) as char
    } else if v == 62 {
        '+'
    } else {
        '/'
    }
}

fn sextet_of(c: char) -> (r: Option<u8>)
    ensures
        match r {
            Some(v) => v < 64 && b64_char(v as nat) == c,
            None => forall|v: nat| v < 64 ==> b64_char(v) != c,
        },
{
    if 'A' <= c && c <= 'Z' {
        Some((c as u32 - 65) as u8)
    } else if 'a' <= c && c <= 'z' {
        Some((c as u32 - 71) as u8)
    } else if '0' <= c && c <= '9' {
        Some((c as u32 + 4) as u8)
    } else if c == '+' {
        Some(62)
    } else if c == '/' {
        Some(63)
    } else {
        None
    }
}

/// Appends the Base64 text of `b`.
pub fn push_b64(s: &mut String, b: &Vec<u8>)
    ensures
        final(s)@ == old(s)@ + b64(b@),
{
    let n = b.len();
    let mut j: usize = 0;
    let ghost mut g: int = 0;
    while n - j >= 3
        invariant
            n == b@.len(),
            j == 3 * g,
            j <= n,
            s@ == old(s)@ + b64(b@).subrange(0, 4 * g),
        decreases n - j,
    {
        let x0 = b[j];
        let x1 = b[j + 1];
        let x2 = b[j + 2];
        let v0: u8 = x0 / 4;
        let v1: u8 = (x0 % 4) * 16 + x1 / 16;
        let v2: u8 = (x1 % 16) * 4 + x2 / 64;
        let v3: u8 = x2 % 64;
        proof {
            lemma_b64_len(n as nat);
            assert(4 * g + 4 <= b64_len(n as nat));
            assert forall|k: int| 0 <= k < 4 implies (#[trigger] ((4 * g + k) / 4)) == g && (4 * g + k) % 4 == k by {}
            assert(sextet(b@, 4 * g) == v0);
            assert(sextet(b@, 4 * g + 1) == v1);
            assert(sextet(b@, 4 * g + 2) == v2);
            assert(sextet(b@, 4 * g + 3) == v3);
        }
        let ghost before = s@;
        push_char(s, b64_of(v0));
        push_char(s, b64_of(v1));
        push_char(s, b64_of(v2));
        push_char(s, b64_of(v3));
        proof {
            assert(b64(b@).subrange(0, 4 * g + 4) =~= b64(b@).subrange(0, 4 * g) + seq![
                b64_char(v0 as nat),
                b64_char(v1 as nat),
                b64_char(v2 as nat),
                b64_char(v3 as nat),
            ]);
            assert(s@ =~= old(s)@ + b64(b@).subrange(0, 4 * g + 4));
            g = g + 1;
        }
        j = j + 3;
    }
    proof {
        lemma_b64_len(n as nat);
        assert(n / 3 == g);
        assert((4 * g) / 4 == g && (4 * g) % 4 == 0);
        assert((4 * g + 1) / 4 == g && (4 * g + 1) % 4 == 1);
        assert((4 * g + 2) / 4 == g && (4 * g + 2) % 4 == 2);
    }
    if n - j == 1 {
        let x0 = b[j];
        let v0: u8 = x0 / 4;
        let v1: u8 = (x0 % 4) * 16;
        assert(sextet(b@, 4 * g) == v0);
        assert(sextet(b@, 4 * g + 1) == v1);
        push_char(s, b64_of(v0));
        push_char(s, b64_of(v1));
        proof {
            assert(b64(b@) =~= b64(b@).subrange(0, 4 * g) + seq![
                b64_char(v0 as nat),
                b64_char(v1 as nat),
            ]);
        }
    } else if n - j == 2 {
        let x0 = b[j];
        let x1 = b[j + 1];
        let v0: u8 = x0 / 4;
        let v1: u8 = (x0 % 4) * 16 + x1 / 16;
        let v2: u8 = (x1 % 16) * 4;
        assert(sextet(b@, 4 * g) == v0);
        assert(sextet(b@, 4 * g + 1) == v1);
        assert(sextet(b@, 4 * g + 2) == v2);
        push_char(s, b64_of(v0));
        push_char(s, b64_of(v1));
        push_char(s, b64_of(v2));
        proof {
            assert(b64(b@) =~= b64(b@).subrange(0, 4 * g) + seq![
                b64_char(v0 as nat),
                b64_char(v1 as nat),
                b64_char(v2 as nat),
            ]);
        }
    } else {
        assert(b64(b@) =~= b64(b@).subrange(0, 4 * g));
    }
    assert(s@ =~= old(s)@ + b64(b@));
}

/// Any Base64 text ends in unused bits that are zero.
proof fn lemma_b64_canonical(b: Seq<u8>, sx: Seq<u8>)
    requires
        sx.len() == b64_len(b.len()),
        forall|i: int| 0 <= i < sx.len() ==> sx[i] as nat == sextet(b, i),
    ensures
        canonical_tail(sx),
{
    let n = b.len();
    let len = sx.len();
    lemma_b64_len(n);
    if len % 4 == 2 || len % 4 == 3 {
        let i = len - 1;
        let g = i / 4;
        assert(n / 3 == g);
        if len % 4 == 2 {
            assert(i % 4 == 1);
            assert(byte_at(b, 3 * g + 1) == 0);
            assert(sextet(b, i) % 16 == 0);
        } else {
            assert(i % 4 == 2);
            assert(byte_at(b, 3 * g + 2) == 0);
            assert(sextet(b, i) % 4 == 0);
        }
    }
}

/// Reads `s` as unpadded Base64: the bytes whose text it is, or `None`
/// where it is the text of no bytes.
pub fn parse_b64(s: &Vec<char>) -> (r: Option<Vec<u8>>)
    ensures
        match r {
            Some(b) => b64(b@) == s@,
            None => forall|b: Seq<u8>| b64(b) != s@,
        },
{
    let len = s.len();
    let mut sx: Vec<u8> = Vec::new();
    let mut i: usize = 0;
    while i < len
        invariant
            len == s@.len(),
            i <= len,
            sx@.len() == i,
            forall|k: int| 0 <= k < i ==> #[trigger] sx@[k] < 64 && b64_char(sx@[k] as nat) == s@[k],
        decreases len - i,
    {
        match sextet_of(s[i]) {
            Some(v) => {
                let ghost before = sx@;
                sx.push(v);
                assert(forall|k: int| 0 <= k < i ==> sx@[k] == before[k]);
                assert(sx@[i as int] == v);
            },
            None => {
                proof {
                    assert forall|b: Seq<u8>| b64(b) != s@ by {
                        if b64(b) == s@ {
                            assert(s@[i as int] == b64_char(sextet(b, i as int)));
                            lemma_sextet_bound(b, i as int);
                        }
                    }
                }
                return None;
            },
        }
        i = i + 1;
    }
    assert(i == len);
    assert(forall|k: int| 0 <= k < len ==> sx@[k] < 64);
    proof {
        assert forall|b: Seq<u8>| b64(b) == s@ implies sx@.len() == b64_len(b.len()) && forall|k: int|
            0 <= k < sx@.len() ==> sx@[k] as nat == sextet(b, k) by {
            assert forall|k: int| 0 <= k < sx@.len() implies sx@[k] as nat == sextet(b, k) by {
                assert(s@[k] == b64_char(sextet(b, k)));
                lemma_sextet_bound(b, k);
                lemma_b64_char(sextet(b, k));
            }
        }
    }
    if len % 4 == 1 {
        proof {
            assert forall|b: Seq<u8>| b64(b) != s@ by {
                lemma_b64_len(b.len());
            }
        }
        return None;
    }
    if (len % 4 == 2 && sx[len - 1] % 16 != 0) || (len % 4 == 3 && sx[len - 1] % 4 != 0) {
        proof {
            assert forall|b: Seq<u8>| b64(b) != s@ by {
                if b64(b) == s@ {
                    lemma_b64_canonical(b, sx@);
                }
            }
        }
        return None;
    }
    let n: usize = len / 4 * 3 + if len % 4 == 0 { 0 } else { len % 4 - 1 };
    assert(n == (3 * len) / 4);
    let mut out: Vec<u8> = Vec::new();
    let mut j: usize = 0;
    while j < n
        invariant
            len == sx@.len(),
            len % 4 != 1,
            n == (3 * len) / 4,
            forall|k: int| 0 <= k < len ==> sx@[k] < 64,
            j <= n,
            out@.len() == j,
            forall|k: int| 0 <= k < j ==> out@[k] as nat == byte_from(sx@, k),
        decreases n - j,
    {
        let g = j / 3;
        assert(4 * g + (j % 3) + 1 < len);
        let byte: u8 = if j % 3 == 0 {
            sx[4 * g] * 4 + sx[4 * g + 1] / 16
        } else if j % 3 == 1 {
            (sx[4 * g + 1] % 16) * 16 + sx[4 * g + 2] / 4
        } else {
            (sx[4 * g + 2] % 4) * 64 + sx[4 * g + 3]
        };
        out.push(byte);
        j = j + 1;
    }
    proof {
        lemma_decoded(sx@, out@);
        lemma_b64_len(out@.len());
        assert(b64_len(out@.len()) == len) by {
            assert(len % 4 == 0 || len % 4 == 2 || len % 4 == 3);
        }
        assert forall|k: int| 0 <= k < len implies b64(out@)[k] == s@[k] by {
            assert(b64(out@)[k] == b64_char(sextet(out@, k)));
        }
        assert(b64(out@) =~= s@);
    }
    Some(out)
}

} // verus!
