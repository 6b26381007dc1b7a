//! The credential: an Argon2 variant, its costs, a salt and the derived
//! output, written as
//! `$<variant>$v=19$m=<memory>,t=<iterations>,p=<lanes>$<salt>$<output>`,
//! the salt and output in unpadded Base64.

use vstd::prelude::*;
use crate::outside::push_char;
use crate::b64::{b64, lemma_b64_free, lemma_b64_injective, parse_b64, push_b64};
use crate::text::{
    chars_of, dec, free_of, is_digit, join, lemma_dec, lemma_dec_injective, lemma_join_unique,
    parse_number, push_all, push_dec, same_chars, split, views,
};

verus! {

pub const MIN_M_COST: u32 = 8;

pub const MAX_P_COST: u32 = 0xFF_FFFF;

pub const MIN_SALT_LEN: usize = 8;

pub const MAX_SALT_LEN: usize = 0xFFFF_FFFF;

pub const MIN_OUTPUT_LEN: usize = 4;

pub const MAX_OUTPUT_LEN: usize = 0xFFFF_FFFF;

#[derive(Clone, Copy, Debug, PartialEq, Eq, Structural)]
pub enum Variant {
    Argon2d,
    Argon2i,
    Argon2id,
}

/// A parsed credential.
#[derive(Clone, Debug)]
pub struct Credential {
    pub variant: Variant,
    pub m_cost: u32,
    pub t_cost: u32,
    pub p_cost: u32,
    pub salt: Vec<u8>,
    pub output: Vec<u8>,
}

/// What a credential holds, as mathematical values.
pub struct CredentialView {
    pub variant: Variant,
    pub m_cost: u32,
    pub t_cost: u32,
    pub p_cost: u32,
    pub salt: Seq<u8>,
    pub output: Seq<u8>,
}

impl View for Credential {
    type V = CredentialView;

    open spec fn view(&self) -> CredentialView {
        CredentialView {
            variant: self.variant,
            m_cost: self.m_cost,
            t_cost: self.t_cost,
            p_cost: self.p_cost,
            salt: self.salt@,
            output: self.output@,
        }
    }
}

pub open spec fn params_valid(m_cost: u32, t_cost: u32, p_cost: u32) -> bool {
    &&& m_cost >= MIN_M_COST
    &&& m_cost >= 8 * p_cost
    &&& t_cost >= 1
    &&& 1 <= p_cost <= MAX_P_COST
}

impl CredentialView {
    /// Costs and lengths that the derivation accepts.
    pub open spec fn wf(self) -> bool {
        &&& params_valid(self.m_cost, self.t_cost, self.p_cost)
        &&& MIN_SALT_LEN <= self.salt.len() <= MAX_SALT_LEN
        &&& MIN_OUTPUT_LEN <= self.output.len() <= MAX_OUTPUT_LEN
    }
}

pub open spec fn tag(v: Variant) -> Seq<char> {
    match v {
        Variant::Argon2d => seq!['a', 'r', 'g', 'o', 'n', '2', 'd'],
        Variant::Argon2i => seq!['a', 'r', 'g', 'o', 'n', '2', 'i'],
        Variant::Argon2id => seq!['a', 'r', 'g', 'o', 'n', '2', 'i', 'd'],
    }
}

pub open spec fn version_field() -> Seq<char> {
    seq!['v', '=', '1', '9']
}

/// `k=n`.
pub open spec fn cost_field(k: char, n: u32) -> Seq<char> {
    seq![k, '='] + dec(n as nat)
}

pub open spec fn cost_fields(m_cost: u32, t_cost: u32, p_cost: u32) -> Seq<Seq<char>> {
    seq![cost_field('m', m_cost), cost_field('t', t_cost), cost_field('p', p_cost)]
}

pub open spec fn fields(c: CredentialView) -> Seq<Seq<char>> {
    seq![
        Seq::empty(),
        tag(c.variant),
        version_field(),
        join(cost_fields(c.m_cost, c.t_cost, c.p_cost), ','),
        b64(c.salt),
        b64(c.output),
    ]
}

/// The text of a credential.
pub open spec fn encode(c: CredentialView) -> Seq<char> {
    join(fields(c), '$')
}

/// The well-formed credential whose text is `s`, if there is one.
pub open spec fn decode(s: Seq<char>) -> Option<CredentialView> {
    if exists|c: CredentialView| c.wf() && encode(c) == s {
        Some(choose|c: CredentialView| c.wf() && encode(c) == s)
    } else {
        None
    }
}

proof fn lemma_join_cons(p: Seq<char>, rest: Seq<Seq<char>>, d: char)
    requires
        rest.len() >= 1,
    ensures
        join(seq![p] + rest, d) == p + (seq![d] + join(rest, d)),
{
    assert((seq![p] + rest).drop_first() =~= rest);
}

proof fn lemma_join_free(ps: Seq<Seq<char>>, d: char, x: char)
    requires
        x != d,
        free_of(ps, x),
    ensures
        !join(ps, d).contains(x),
    decreases ps.len(),
{
    if ps.len() >= 2 {
        assert(free_of(ps.drop_first(), x)) by {
            assert forall|i: int| 0 <= i < ps.drop_first().len() implies !(#[trigger] ps.drop_first()[i]).contains(x) by {
                assert(ps.drop_first()[i] == ps[i + 1]);
            }
        }
        lemma_join_free(ps.drop_first(), d, x);
        let j = join(ps, d);
        if j.contains(x) {
            let k = choose|k: int| 0 <= k < j.len() && j[k] == x;
            let a = ps[0];
            let r = seq![d] + join(ps.drop_first(), d);
            assert(j == a + r);
            if k < a.len() {
                assert(a[k] == x);
            } else if k > a.len() {
                assert(join(ps.drop_first(), d)[k - a.len() - 1] == x);
            }
        }
    } else if ps.len() == 1 {
        assert(!ps[0].contains(x));
    }
}

proof fn lemma_cost_field_free(k: char, n: u32, x: char)
    requires
        !is_digit(x),
        x != k,
        x != '=',
    ensures
        !cost_field(k, n).contains(x),
{
    lemma_dec(n as nat);
    let f = cost_field(k, n);
    if f.contains(x) {
        let i = choose|i: int| 0 <= i < f.len() && f[i] == x;
        if i >= 2 {
            assert(dec(n as nat)[i - 2] == x);
        }
    }
}

proof fn lemma_cost_fields_free(m: u32, t: u32, p: u32)
    ensures
        free_of(cost_fields(m, t, p), ','),
        free_of(cost_fields(m, t, p), '$'),
        !join(cost_fields(m, t, p), ',').contains('$'),
{
    lemma_cost_field_free('m', m, ',');
    lemma_cost_field_free('t', t, ',');
    lemma_cost_field_free('p', p, ',');
    lemma_cost_field_free('m', m, '$');
    lemma_cost_field_free('t', t, '$');
    lemma_cost_field_free('p', p, '$');
    lemma_join_free(cost_fields(m, t, p), ',', '$');
}

proof fn lemma_fields_free(c: CredentialView)
    ensures
        free_of(fields(c), '$'),
        fields(c).len() == 6,
{
    lemma_cost_fields_free(c.m_cost, c.t_cost, c.p_cost);
    lemma_b64_free(c.salt, '$');
    lemma_b64_free(c.output, '$');
    let f = fields(c);
    assert(!f[0].contains('$'));
    assert(!tag(c.variant).contains('$')) by {
        let t = tag(c.variant);
        if t.contains('$') {
            let i = choose|i: int| 0 <= i < t.len() && t[i] == '$';
        }
    }
    assert(!version_field().contains('$')) by {
        let t = version_field();
        if t.contains('$') {
            let i = choose|i: int| 0 <= i < t.len() && t[i] == '$';
        }
    }
}

proof fn lemma_tag_injective(v: Variant, w: Variant)
    requires
        tag(v) == tag(w),
    ensures
        v == w,
{
    assert(tag(Variant::Argon2d)[6] == 'd');
    assert(tag(Variant::Argon2i)[6] == 'i');
    assert(tag(Variant::Argon2d).len() == 7);
    assert(tag(Variant::Argon2i).len() == 7);
    assert(tag(Variant::Argon2id).len() == 8);
    if v != w {
        assert(tag(v).len() != tag(w).len() || tag(v)[6] != tag(w)[6]);
    }
}

proof fn lemma_cost_field_injective(k: char, n1: u32, n2: u32)
    requires
        cost_field(k, n1) == cost_field(k, n2),
    ensures
        n1 == n2,
{
    let f1 = cost_field(k, n1);
    assert(dec(n1 as nat) =~= f1.subrange(2, f1.len() as int));
    assert(dec(n2 as nat) =~= cost_field(k, n2).subrange(2, f1.len() as int));
    lemma_dec_injective(n1 as nat, n2 as nat);
}

/// Distinct credentials have distinct texts: the text determines the
/// variant, every cost, the salt and the output.
pub proof fn lemma_encode_injective(c1: CredentialView, c2: CredentialView)
    requires
        encode(c1) == encode(c2),
    ensures
        c1 == c2,
{
    lemma_fields_free(c1);
    lemma_fields_free(c2);
    lemma_join_unique(fields(c1), fields(c2), '$');
    assert(fields(c1)[1] == fields(c2)[1]);
    lemma_tag_injective(c1.variant, c2.variant);
    assert(fields(c1)[3] == fields(c2)[3]);
    lemma_cost_fields_free(c1.m_cost, c1.t_cost, c1.p_cost);
    lemma_cost_fields_free(c2.m_cost, c2.t_cost, c2.p_cost);
    let a = cost_fields(c1.m_cost, c1.t_cost, c1.p_cost);
    let b = cost_fields(c2.m_cost, c2.t_cost, c2.p_cost);
    lemma_join_unique(a, b, ',');
    assert(a[0] == b[0] && a[1] == b[1] && a[2] == b[2]);
    lemma_cost_field_injective('m', c1.m_cost, c2.m_cost);
    lemma_cost_field_injective('t', c1.t_cost, c2.t_cost);
    lemma_cost_field_injective('p', c1.p_cost, c2.p_cost);
    assert(fields(c1)[4] == fields(c2)[4]);
    assert(fields(c1)[5] == fields(c2)[5]);
    lemma_b64_injective(c1.salt, c2.salt);
    lemma_b64_injective(c1.output, c2.output);
}

/// Decoding the text of a well-formed credential gives back that credential:
/// the same variant, costs, salt and output.
pub proof fn lemma_round_trip(c: CredentialView)
    requires
        c.wf(),
    ensures
        decode(encode(c)) == Some(c),
{
    let s = encode(c);
    assert(exists|x: CredentialView| x.wf() && encode(x) == s);
    let d = choose|x: CredentialView| x.wf() && encode(x) == s;
    lemma_encode_injective(d, c);
}

/// The text of a credential, piece by piece.
pub open spec fn encode_pieces(c: CredentialView) -> Seq<char> {
    seq!['$'] + tag(c.variant) + seq!['$'] + version_field() + seq!['$'] + cost_field('m', c.m_cost)
        + seq![','] + cost_field('t', c.t_cost) + seq![','] + cost_field('p', c.p_cost) + seq!['$']
        + b64(c.salt) + seq!['$'] + b64(c.output)
}

proof fn lemma_join_three(a: Seq<char>, b: Seq<char>, c: Seq<char>, x: char)
    ensures
        join(seq![a, b, c], x) == a + seq![x] + b + seq![x] + c,
{
    let l2: Seq<Seq<char>> = seq![c];
    let l1 = seq![b] + l2;
    assert(seq![a, b, c] =~= seq![a] + l1);
    lemma_join_cons(a, l1, x);
    lemma_join_cons(b, l2, x);
    assert(join(seq![a, b, c], x) =~= a + seq![x] + b + seq![x] + c);
}

proof fn lemma_join_six(
    a: Seq<char>,
    b: Seq<char>,
    c: Seq<char>,
    d: Seq<char>,
    e: Seq<char>,
    f: Seq<char>,
    x: char,
)
    ensures
        join(seq![a, b, c, d, e, f], x) == a + seq![x] + b + seq![x] + c + seq![x] + d + seq![x] + e
            + seq![x] + f,
{
    let l5: Seq<Seq<char>> = seq![f];
    let l4 = seq![e] + l5;
    let l3 = seq![d] + l4;
    let l2 = seq![c] + l3;
    let l1 = seq![b] + l2;
    assert(seq![a, b, c, d, e, f] =~= seq![a] + l1);
    lemma_join_cons(a, l1, x);
    lemma_join_cons(b, l2, x);
    lemma_join_cons(c, l3, x);
    lemma_join_cons(d, l4, x);
    lemma_join_cons(e, l5, x);
    assert(join(seq![a, b, c, d, e, f], x) =~= a + seq![x] + b + seq![x] + c + seq![x] + d + seq![x]
        + e + seq![x] + f);
}

proof fn lemma_encode_pieces(c: CredentialView)
    ensures
        encode(c) == encode_pieces(c),
{
    let m = cost_field('m', c.m_cost);
    let t = cost_field('t', c.t_cost);
    let p = cost_field('p', c.p_cost);
    lemma_join_three(m, t, p, ',');
    let costs = join(cost_fields(c.m_cost, c.t_cost, c.p_cost), ',');
    let salt = b64(c.salt);
    let output = b64(c.output);
    lemma_join_six(Seq::empty(), tag(c.variant), version_field(), costs, salt, output, '$');
    assert(encode(c) =~= encode_pieces(c));
}

fn tag_chars(v: Variant) -> (r: Vec<char>)
    ensures
        r@ == tag(v),
{
    match v {
        Variant::Argon2d => vec!['a', 'r', 'g', 'o', 'n', '2', 'd'],
        Variant::Argon2i => vec!['a', 'r', 'g', 'o', 'n', '2', 'i'],
        Variant::Argon2id => vec!['a', 'r', 'g', 'o', 'n', '2', 'i', 'd'],
    }
}

/// Writes the text of a credential.
pub fn encode_credential(c: &Credential) -> (r: String)
    ensures
        r@ == encode(c@),
{
    let mut s = String::new();
    push_char(&mut s, '$');
    push_all(&mut s, &tag_chars(c.variant));
    push_char(&mut s, '$');
    push_all(&mut s, &vec!['v', '=', '1', '9']);
    push_char(&mut s, '$');
    push_char(&mut s, 'm');
    push_char(&mut s, '=');
    push_dec(&mut s, c.m_cost);
    push_char(&mut s, ',');
    push_char(&mut s, 't');
    push_char(&mut s, '=');
    push_dec(&mut s, c.t_cost);
    push_char(&mut s, ',');
    push_char(&mut s, 'p');
    push_char(&mut s, '=');
    push_dec(&mut s, c.p_cost);
    push_char(&mut s, '$');
    push_b64(&mut s, &c.salt);
    push_char(&mut s, '$');
    push_b64(&mut s, &c.output);
    proof {
        lemma_encode_pieces(c@);
        assert(s@ =~= encode_pieces(c@));
    }
    s
}

fn parse_tag(part: &Vec<char>) -> (r: Option<Variant>)
    ensures
        match r {
            Some(v) => part@ == tag(v),
            None => forall|v: Variant| part@ != tag(v),
        },
{
    if same_chars(part, &tag_chars(Variant::Argon2id)) {
        Some(Variant::Argon2id)
    } else if same_chars(part, &tag_chars(Variant::Argon2i)) {
        Some(Variant::Argon2i)
    } else if same_chars(part, &tag_chars(Variant::Argon2d)) {
        Some(Variant::Argon2d)
    } else {
        None
    }
}

fn parse_cost_field(piece: &Vec<char>, k: char) -> (r: Option<u32>)
    ensures
        match r {
            Some(n) => piece@ == cost_field(k, n),
            None => forall|n: u32| piece@ != cost_field(k, n),
        },
{
    if piece.len() < 2 || piece[0] != k || piece[1] != '=' {
        return None;
    }
    let r = parse_number(piece, 2);
    proof {
        assert(piece@ =~= seq![k, '='] + piece@.subrange(2, piece@.len() as int));
        assert forall|n: u32| piece@ == cost_field(k, n) implies piece@.subrange(
            2,
            piece@.len() as int,
        ) == dec(n as nat) by {
            assert(cost_field(k, n).subrange(2, piece@.len() as int) =~= dec(n as nat));
        }
    }
    r
}

fn parse_costs(part: &Vec<char>) -> (r: Option<(u32, u32, u32)>)
    ensures
        match r {
            Some((m, t, p)) => part@ == join(cost_fields(m, t, p), ','),
            None => forall|m: u32, t: u32, p: u32| part@ != join(cost_fields(m, t, p), ','),
        },
{
    let pieces = split(part, ',');
    let ghost pv = views(pieces@);
    proof {
        assert forall|m: u32, t: u32, p: u32| part@ == join(cost_fields(m, t, p), ',') implies pv
            == cost_fields(m, t, p) by {
            lemma_cost_fields_free(m, t, p);
            lemma_join_unique(pv, cost_fields(m, t, p), ',');
        }
    }
    if pieces.len() != 3 {
        return None;
    }
    let m = parse_cost_field(&pieces[0], 'm');
    let t = parse_cost_field(&pieces[1], 't');
    let p = parse_cost_field(&pieces[2], 'p');
    match (m, t, p) {
        (Some(m), Some(t), Some(p)) => {
            proof {
                assert(pv =~= cost_fields(m, t, p));
            }
            Some((m, t, p))
        },
        _ => {
            proof {
                assert(pv[0] == pieces@[0]@ && pv[1] == pieces@[1]@ && pv[2] == pieces@[2]@);
            }
            None
        },
    }
}

/// Reads the six `$`-separated fields of a credential text.
fn parse_fields(parts: &Vec<Vec<char>>) -> (r: Option<Credential>)
    ensures
        match r {
            Some(c) => c@.wf() && fields(c@) == views(parts@),
            None => forall|c: CredentialView| c.wf() ==> fields(c) != views(parts@),
        },
{
    let ghost pv = views(parts@);
    if parts.len() != 6 {
        proof {
            assert forall|c: CredentialView| c.wf() implies fields(c) != pv by {
                lemma_fields_free(c);
            }
        }
        return None;
    }
    proof {
        assert(pv[0] == parts@[0]@ && pv[1] == parts@[1]@ && pv[2] == parts@[2]@);
        assert(pv[3] == parts@[3]@ && pv[4] == parts@[4]@ && pv[5] == parts@[5]@);
        assert(Seq::<char>::empty().len() == 0);
    }
    if parts[0].len() != 0 {
        return None;
    }
    let variant = match parse_tag(&parts[1]) {
        Some(v) => v,
        None => {
            return None;
        },
    };
    if !same_chars(&parts[2], &vec!['v', '=', '1', '9']) {
        return None;
    }
    let (m_cost, t_cost, p_cost) = match parse_costs(&parts[3]) {
        Some(costs) => costs,
        None => {
            return None;
        },
    };
    let salt = match parse_b64(&parts[4]) {
        Some(b) => b,
        None => {
            return None;
        },
    };
    let output = match parse_b64(&parts[5]) {
        Some(b) => b,
        None => {
            return None;
        },
    };
    let c = Credential { variant, m_cost, t_cost, p_cost, salt, output };
    proof {
        assert(pv[0] =~= Seq::<char>::empty());
        assert(fields(c@) =~= pv);
    }
    if m_cost < MIN_M_COST || p_cost < 1 || p_cost > MAX_P_COST || m_cost < 8 * p_cost || t_cost < 1
        || c.salt.len() < MIN_SALT_LEN || c.salt.len() > MAX_SALT_LEN
        || c.output.len() < MIN_OUTPUT_LEN || c.output.len() > MAX_OUTPUT_LEN {
        proof {
            assert forall|d: CredentialView| d.wf() implies fields(d) != pv by {
                if fields(d) == pv {
                    lemma_encode_injective(d, c@);
                }
            }
        }
        return None;
    }
    Some(c)
}

/// Reads a credential text: the well-formed credential it is the text of,
/// or `None` where it is the text of none.
pub fn parse_credential(s: &str) -> (r: Option<Credential>)
    ensures
        match r {
            Some(c) => decode(s@) == Some(c@),
            None => decode(s@) is None,
        },
{
    let chars = chars_of(s);
    let parts = split(&chars, '$');
    let r = parse_fields(&parts);
    proof {
        let pv = views(parts@);
        match &r {
            Some(c) => {
                lemma_round_trip(c@);
            },
            None => {
                assert forall|c: CredentialView| c.wf() implies encode(c) != s@ by {
                    if encode(c) == s@ {
                        lemma_fields_free(c);
                        lemma_join_unique(fields(c), pv, '$');
                    }
                }
            },
        }
    }
    r
}

} // verus!
