//! Decimal digit strings, and fields joined by a separator.

use vstd::prelude::*;
use crate::outside::push_char;

verus! {

/// The decimal digit character for `d < 10`.
pub open spec fn digit_char(d: nat) -> char {
    ((d + 48) as u8) as char
}

pub open spec fn is_digit(c: char) -> bool {
    '0' <= c && c <= '9'
}

/// The numeric value of a decimal digit character.
pub open spec fn digit_value(c: char) -> nat {
    (c as u32 - 48) as nat
}

/// The canonical decimal text of `n`: no sign, no leading zero.
pub open spec fn dec(n: nat) -> Seq<char>
    decreases n,
{
    if n < 10 {
        seq![digit_char(n)]
    } else {
        dec(n / 10).push(digit_char(n % 10))
    }
}

/// The value of a string of decimal digits, most significant first.
pub open spec fn digits_value(s: Seq<char>) -> nat
    decreases s.len(),
{
    if s.len() == 0 {
        0
    } else {
        digits_value(s.drop_last()) * 10 + digit_value(s.last())
    }
}

pub open spec fn all_digits(s: Seq<char>) -> bool {
    forall|i: int| 0 <= i < s.len() ==> is_digit(#[trigger] s[i])
}

/// The parts written one after another with `d` between neighbours.
pub open spec fn join(parts: Seq<Seq<char>>, d: char) -> Seq<char>
    decreases parts.len(),
{
    if parts.len() == 0 {
        Seq::empty()
    } else if parts.len() == 1 {
        parts[0]
    } else {
        parts[0] + (seq![d] + join(parts.drop_first(), d))
    }
}

pub open spec fn free_of(parts: Seq<Seq<char>>, d: char) -> bool {
    forall|i: int| 0 <= i < parts.len() ==> !(#[trigger] parts[i]).contains(d)
}

pub proof fn lemma_digit_char(d: nat)
    requires
        d < 10,
    ensures
        is_digit(digit_char(d)),
        digit_value(digit_char(d)) == d,
        digit_char(d) == '0' <==> d == 0,
{
}

pub proof fn lemma_digit_char_of_value(c: char)
    requires
        is_digit(c),
    ensures
        digit_char(digit_value(c)) == c,
        digit_value(c) < 10,
{
    let x = c as u32;
    assert(((x - 48 + 48) as u8) as char == c);
}

/// `dec(n)` is a non-empty canonical digit string whose value is `n`.
pub proof fn lemma_dec(n: nat)
    ensures
        dec(n).len() >= 1,
        all_digits(dec(n)),
        digits_value(dec(n)) == n,
        dec(n)[0] == '0' ==> n == 0 && dec(n).len() == 1,
    decreases n,
{
    if n < 10 {
        lemma_digit_char(n);
        assert(dec(n).drop_last() =~= Seq::<char>::empty());
        assert(digits_value(dec(n).drop_last()) == 0);
        assert(dec(n).last() == digit_char(n));
    } else {
        lemma_dec(n / 10);
        lemma_digit_char(n % 10);
        let s = dec(n);
        assert(s.drop_last() =~= dec(n / 10));
        assert(s.last() == digit_char(n % 10));
        assert(digits_value(s) == digits_value(dec(n / 10)) * 10 + n % 10);
        assert(s[0] == dec(n / 10)[0]);
        assert forall|i: int| 0 <= i < s.len() implies is_digit(#[trigger] s[i]) by {
            if i < s.len() - 1 {
                assert(s[i] == dec(n / 10)[i]);
            }
        }
    }
}

pub proof fn lemma_digits_value_positive(s: Seq<char>)
    requires
        s.len() >= 1,
        all_digits(s),
        s[0] != '0',
    ensures
        digits_value(s) >= 1,
    decreases s.len(),
{
    if s.len() == 1 {
        lemma_digit_char_of_value(s[0]);
        if digit_value(s[0]) == 0 {
            lemma_digit_char(0);
        }
    } else {
        let t = s.drop_last();
        assert(t[0] == s[0]);
        assert(all_digits(t)) by {
            assert forall|i: int| 0 <= i < t.len() implies is_digit(#[trigger] t[i]) by {
                assert(t[i] == s[i]);
            }
        }
        lemma_digits_value_positive(t);
    }
}

/// A canonical digit string is the decimal text of its value.
pub proof fn lemma_canonical_digits(s: Seq<char>)
    requires
        s.len() >= 1,
        all_digits(s),
        s[0] == '0' ==> s.len() == 1,
    ensures
        dec(digits_value(s)) == s,
    decreases s.len(),
{
    let last = s.last();
    assert(is_digit(s[s.len() - 1]));
    lemma_digit_char_of_value(last);
    if s.len() == 1 {
        assert(s.drop_last() =~= Seq::<char>::empty());
        assert(digits_value(s.drop_last()) == 0);
        assert(digits_value(s) == digit_value(last));
        assert(dec(digits_value(s)) =~= seq![last]);
        assert(dec(digits_value(s)) =~= s);
    } else {
        let t = s.drop_last();
        assert(t[0] == s[0]);
        assert(all_digits(t)) by {
            assert forall|i: int| 0 <= i < t.len() implies is_digit(#[trigger] t[i]) by {
                assert(t[i] == s[i]);
            }
        }
        lemma_digits_value_positive(t);
        lemma_canonical_digits(t);
        let v = digits_value(s);
        assert(v == digits_value(t) * 10 + digit_value(last));
        assert(v / 10 == digits_value(t));
        assert(v % 10 == digit_value(last));
        assert(dec(v) =~= s);
    }
}

/// The value of a prefix of a digit string is at most that of the string.
pub proof fn lemma_digits_value_prefix(s: Seq<char>, k: int)
    requires
        0 <= k <= s.len(),
        all_digits(s),
    ensures
        digits_value(s.subrange(0, k)) <= digits_value(s),
    decreases s.len(),
{
    if k < s.len() {
        let t = s.drop_last();
        assert(all_digits(t)) by {
            assert forall|i: int| 0 <= i < t.len() implies is_digit(#[trigger] t[i]) by {
                assert(t[i] == s[i]);
            }
        }
        lemma_digits_value_prefix(t, k);
        assert(t.subrange(0, k) =~= s.subrange(0, k));
    } else {
        assert(s.subrange(0, k) =~= s);
    }
}

pub proof fn lemma_dec_injective(a: nat, b: nat)
    requires
        dec(a) == dec(b),
    ensures
        a == b,
{
    lemma_dec(a);
    lemma_dec(b);
}

/// Where two texts agree and each begins with a run free of `d` followed by
/// `d`, the runs agree and so do the rests.
pub proof fn lemma_split_first(a1: Seq<char>, r1: Seq<char>, a2: Seq<char>, r2: Seq<char>, d: char)
    requires
        a1 + r1 == a2 + r2,
        !a1.contains(d),
        !a2.contains(d),
        r1.len() > 0 && r1[0] == d,
        r2.len() > 0 && r2[0] == d,
    ensures
        a1 == a2,
        r1 == r2,
{
    let s = a1 + r1;
    if a1.len() < a2.len() {
        assert(s[a1.len() as int] == d);
        assert((a2 + r2)[a1.len() as int] == a2[a1.len() as int]);
        assert(a2.contains(d));
    } else if a2.len() < a1.len() {
        assert((a2 + r2)[a2.len() as int] == d);
        assert(s[a2.len() as int] == a1[a2.len() as int]);
        assert(a1.contains(d));
    }
    assert(a1 =~= s.subrange(0, a1.len() as int));
    assert(a2 =~= (a2 + r2).subrange(0, a2.len() as int));
    assert(r1 =~= s.subrange(a1.len() as int, s.len() as int));
    assert(r2 =~= (a2 + r2).subrange(a2.len() as int, s.len() as int));
}

/// Splitting at every separator recovers the parts.
pub proof fn lemma_join_unique(a: Seq<Seq<char>>, b: Seq<Seq<char>>, d: char)
    requires
        a.len() >= 1,
        b.len() >= 1,
        free_of(a, d),
        free_of(b, d),
        join(a, d) == join(b, d),
    ensures
        a == b,
    decreases a.len(),
{
    if a.len() == 1 && b.len() == 1 {
        assert(a =~= b);
    } else if a.len() == 1 {
        assert(!a[0].contains(d));
        assert(join(b, d)[b[0].len() as int] == d);
        assert(a[0].contains(d));
    } else if b.len() == 1 {
        assert(!b[0].contains(d));
        assert(join(a, d)[a[0].len() as int] == d);
        assert(b[0].contains(d));
    } else {
        assert(!a[0].contains(d));
        assert(!b[0].contains(d));
        lemma_split_first(a[0], seq![d] + join(a.drop_first(), d), b[0], seq![d] + join(b.drop_first(), d), d);
        assert(join(a.drop_first(), d) =~= (seq![d] + join(a.drop_first(), d)).drop_first());
        assert(join(b.drop_first(), d) =~= (seq![d] + join(b.drop_first(), d)).drop_first());
        assert(free_of(a.drop_first(), d)) by {
            assert forall|i: int| 0 <= i < a.drop_first().len() implies !(#[trigger] a.drop_first()[i]).contains(d) by {
                assert(a.drop_first()[i] == a[i + 1]);
            }
        }
        assert(free_of(b.drop_first(), d)) by {
            assert forall|i: int| 0 <= i < b.drop_first().len() implies !(#[trigger] b.drop_first()[i]).contains(d) by {
                assert(b.drop_first()[i] == b[i + 1]);
            }
        }
        lemma_join_unique(a.drop_first(), b.drop_first(), d);
        assert forall|i: int| 0 <= i < a.len() implies a[i] == b[i] by {
            if i > 0 {
                assert(a[i] == a.drop_first()[i - 1]);
                assert(b[i] == b.drop_first()[i - 1]);
            }
        }
        assert(a =~= b);
    }
}

pub proof fn lemma_join_push_char(ps: Seq<Seq<char>>, x: Seq<char>, c: char, d: char)
    ensures
        join(ps.push(x.push(c)), d) == join(ps.push(x), d).push(c),
    decreases ps.len(),
{
    if ps.len() == 0 {
        assert(ps.push(x.push(c)) =~= seq![x.push(c)]);
        assert(ps.push(x) =~= seq![x]);
    } else {
        assert(ps.push(x.push(c)).drop_first() =~= ps.drop_first().push(x.push(c)));
        assert(ps.push(x).drop_first() =~= ps.drop_first().push(x));
        lemma_join_push_char(ps.drop_first(), x, c, d);
        assert(join(ps.push(x.push(c)), d) =~= join(ps.push(x), d).push(c));
    }
}

pub proof fn lemma_join_push_part(ps: Seq<Seq<char>>, x: Seq<char>, d: char)
    ensures
        join(ps.push(x).push(Seq::empty()), d) == join(ps.push(x), d).push(d),
    decreases ps.len(),
{
    if ps.len() == 0 {
        assert(ps.push(x).push(Seq::empty()) =~= seq![x, Seq::empty()]);
        assert(seq![x, Seq::<char>::empty()].drop_first() =~= seq![Seq::<char>::empty()]);
        assert(ps.push(x) =~= seq![x]);
        assert(join(seq![Seq::<char>::empty()], d) == Seq::<char>::empty());
        assert(join(seq![x, Seq::<char>::empty()], d) == x + (seq![d] + Seq::<char>::empty()));
        assert(join(ps.push(x).push(Seq::empty()), d) =~= join(ps.push(x), d).push(d));
    } else {
        assert(ps.push(x).push(Seq::empty()).drop_first() =~= ps.drop_first().push(x).push(Seq::empty()));
        assert(ps.push(x).drop_first() =~= ps.drop_first().push(x));
        lemma_join_push_part(ps.drop_first(), x, d);
        assert(join(ps.push(x).push(Seq::empty()), d) =~= join(ps.push(x), d).push(d));
    }
}

pub open spec fn views(v: Seq<Vec<char>>) -> Seq<Seq<char>> {
    Seq::new(v.len(), |i: int| v[i]@)
}

/// The characters of `s`, in order.
pub fn chars_of(s: &str) -> (r: Vec<char>)
    ensures
        r@ == s@,
{
    let n = s.unicode_len();
    let mut r: Vec<char> = Vec::new();
    let mut i: usize = 0;
    while i < n
        invariant
            n == s@.len(),
            i <= n,
            r@ == s@.subrange(0, i as int),
        decreases n - i,
    {
        r.push(s.get_char(i));
        i = i + 1;
        assert(r@ =~= s@.subrange(0, i as int));
    }
    assert(r@ =~= s@);
    r
}

/// Cuts `s` at every `d`: the parts, none holding `d`, joined by `d` give `s`.
pub fn split(s: &Vec<char>, d: char) -> (r: Vec<Vec<char>>)
    ensures
        r@.len() >= 1,
        join(views(r@), d) == s@,
        free_of(views(r@), d),
{
    let mut done: Vec<Vec<char>> = Vec::new();
    let mut cur: Vec<char> = Vec::new();
    let mut i: usize = 0;
    while i < s.len()
        invariant
            i <= s@.len(),
            join(views(done@).push(cur@), d) == s@.subrange(0, i as int),
            free_of(views(done@), d),
            !cur@.contains(d),
        decreases s@.len() - i,
    {
        let c = s[i];
        if c == d {
            proof {
                lemma_join_push_part(views(done@), cur@, d);
            }
            let ghost old_views = views(done@);
            let ghost old_cur = cur@;
            done.push(cur);
            cur = Vec::new();
            proof {
                assert(views(done@) =~= old_views.push(old_cur));
                assert(cur@ =~= Seq::<char>::empty());
                assert(free_of(views(done@), d)) by {
                    assert forall|k: int| 0 <= k < views(done@).len() implies !(
                    #[trigger] views(done@)[k]).contains(d) by {
                        if k < old_views.len() {
                            assert(views(done@)[k] == old_views[k]);
                        }
                    }
                }
            }
        } else {
            proof {
                lemma_join_push_char(views(done@), cur@, c, d);
            }
            let ghost old_cur = cur@;
            cur.push(c);
            proof {
                assert(!cur@.contains(d)) by {
                    if cur@.contains(d) {
                        let k = choose|k: int| 0 <= k < cur@.len() && cur@[k] == d;
                        assert(k < old_cur.len());
                        assert(old_cur[k] == d);
                    }
                }
            }
        }
        i = i + 1;
        assert(s@.subrange(0, i as int) =~= s@.subrange(0, i - 1).push(c));
    }
    let ghost before = views(done@);
    let ghost last = cur@;
    done.push(cur);
    proof {
        assert(views(done@) =~= before.push(last));
        assert(s@.subrange(0, s@.len() as int) =~= s@);
        assert(free_of(views(done@), d)) by {
            assert forall|k: int| 0 <= k < views(done@).len() implies !(
            #[trigger] views(done@)[k]).contains(d) by {
                if k < before.len() {
                    assert(views(done@)[k] == before[k]);
                }
            }
        }
    }
    done
}

/// Whether `a` holds exactly the characters of `b`.
pub fn same_chars(a: &Vec<char>, b: &Vec<char>) -> (r: bool)
    ensures
        r == (a@ == b@),
{
    if a.len() != b.len() {
        return false;
    }
    let mut i: usize = 0;
    while i < a.len()
        invariant
            a@.len() == b@.len(),
            i <= a@.len(),
            forall|k: int| 0 <= k < i ==> a@[k] == b@[k],
        decreases a@.len() - i,
    {
        if a[i] != b[i] {
            return false;
        }
        i = i + 1;
    }
    assert(a@ =~= b@);
    true
}

/// Reads `s[start..]` as canonical decimal text of a `u32`.
pub fn parse_number(s: &Vec<char>, start: usize) -> (r: Option<u32>)
    requires
        start <= s@.len(),
    ensures
        match r {
            Some(n) => s@.subrange(start as int, s@.len() as int) == dec(n as nat),
            None => forall|n: u32| s@.subrange(start as int, s@.len() as int) != dec(n as nat),
        },
{
    let ghost t = s@.subrange(start as int, s@.len() as int);
    if start == s.len() {
        proof {
            assert forall|n: u32| t != dec(n as nat) by {
                lemma_dec(n as nat);
            }
        }
        return None;
    }
    if s[start] == '0' && s.len() > start + 1 {
        proof {
            assert forall|n: u32| t != dec(n as nat) by {
                lemma_dec(n as nat);
                assert(t[0] == '0');
            }
        }
        return None;
    }
    let mut acc: u64 = 0;
    let mut i: usize = start;
    while i < s.len()
        invariant
            start <= i <= s@.len(),
            t == s@.subrange(start as int, s@.len() as int),
            all_digits(s@.subrange(start as int, i as int)),
            acc == digits_value(s@.subrange(start as int, i as int)),
            acc <= 0xFFFF_FFFF,
        decreases s@.len() - i,
    {
        let c = s[i];
        if !('0' <= c && c <= '9') {
            proof {
                assert forall|n: u32| t != dec(n as nat) by {
                    lemma_dec(n as nat);
                    assert(t[i - start] == c);
                }
            }
            return None;
        }
        let v: u64 = (c as u32 - 48) as u64;
        let ghost pre = s@.subrange(start as int, i as int);
        let ghost next = s@.subrange(start as int, i + 1);
        proof {
            assert(next.drop_last() =~= pre);
            assert(next.last() == c);
            assert(all_digits(next)) by {
                assert forall|k: int| 0 <= k < next.len() implies is_digit(#[trigger] next[k]) by {
                    if k < pre.len() {
                        assert(next[k] == pre[k]);
                    }
                }
            }
        }
        acc = acc * 10 + v;
        i = i + 1;
        if acc > 0xFFFF_FFFF {
            proof {
                assert forall|n: u32| t != dec(n as nat) by {
                    if t == dec(n as nat) {
                        lemma_dec(n as nat);
                        lemma_digits_value_prefix(t, i - start);
                        assert(t.subrange(0, i - start) =~= next);
                    }
                }
            }
            return None;
        }
    }
    proof {
        assert(s@.subrange(start as int, i as int) =~= t);
        if t.len() > 1 {
            assert(t[0] == s@[start as int]);
        }
        lemma_canonical_digits(t);
    }
    Some(acc as u32)
}

/// Appends every character of `cs`.
pub fn push_all(s: &mut String, cs: &Vec<char>)
    ensures
        final(s)@ == old(s)@ + cs@,
{
    let mut i: usize = 0;
    while i < cs.len()
        invariant
            i <= cs@.len(),
            s@ == old(s)@ + cs@.subrange(0, i as int),
        decreases cs@.len() - i,
    {
        push_char(s, cs[i]);
        i = i + 1;
        assert(old(s)@ + cs@.subrange(0, i as int) =~= (old(s)@ + cs@.subrange(0, i - 1)).push(cs@[i - 1]));
    }
    assert(cs@.subrange(0, cs@.len() as int) =~= cs@);
}

/// Appends the decimal text of `n`.
pub fn push_dec(s: &mut String, n: u32)
    ensures
        final(s)@ == old(s)@ + dec(n as nat),
    decreases n,
{
    if n >= 10 {
        push_dec(s, n / 10);
    }
    let d: u8 = (n % 10) as u8 + 48;
    push_char(s, d as char);
    proof {
        if n >= 10 {
            assert(old(s)@ + dec(n as nat) =~= (old(s)@ + dec((n / 10) as nat)).push(digit_char((n % 10) as nat)));
        } else {
            assert(old(s)@ + dec(n as nat) =~= old(s)@.push(digit_char(n as nat)));
        }
    }
}

} // verus!
