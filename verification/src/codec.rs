//! Encoding and decoding of the persisted rotation state.
//!
//! The state file holds one JSON object, `{"avatars":[...],"current":"..."}`,
//! where every element is a string of bytes. The encoder emits a canonical
//! form (no inter-token whitespace; `"` and `\` escaped, control bytes as
//! `\u00XX`), and the decoder accepts exactly that form. Both are verified
//! against the specification functions below, and decoding an encoded state
//! is proved to give the state back.

use vstd::prelude::*;

verus! {

pub const QUOTE: u8 = 34;
pub const COMMA: u8 = 44;
pub const COLON: u8 = 58;
pub const LBRACKET: u8 = 91;
pub const BACKSLASH: u8 = 92;
pub const LOWER_U: u8 = 117;
pub const LBRACE: u8 = 123;
pub const RBRACE: u8 = 125;
pub const RBRACKET: u8 = 93;
pub const DIGIT_ZERO: u8 = 48;

/// The sequence of views of a sequence of byte vectors.
pub open spec fn views_of(l: Seq<Vec<u8>>) -> Seq<Seq<u8>> {
    Seq::new(l.len(), |k: int| l[k]@)
}

/// Lower-case hex character for a digit value below 16.
pub open spec fn hex_digit(d: u8) -> u8 {
    if d < 10 {
        (48 + d) as u8
    } else {
        (87 + d) as u8
    }
}

/// How one byte appears inside an encoded string.
pub open spec fn esc_byte(b: u8) -> Seq<u8> {
    if b == QUOTE {
        seq![BACKSLASH, QUOTE]
    } else if b == BACKSLASH {
        seq![BACKSLASH, BACKSLASH]
    } else if b < 32 {
        seq![BACKSLASH, LOWER_U, DIGIT_ZERO, DIGIT_ZERO, hex_digit(b / 16), hex_digit(b % 16)]
    } else {
        seq![b]
    }
}

/// The escaped form of a whole byte string.
pub open spec fn esc(s: Seq<u8>) -> Seq<u8>
    decreases s.len(),
{
    if s.len() == 0 {
        Seq::empty()
    } else {
        esc_byte(s[0]) + esc(s.skip(1))
    }
}

/// An encoded string: the escaped bytes between two quotes.
pub open spec fn ser_string(x: Seq<u8>) -> Seq<u8> {
    seq![QUOTE] + esc(x) + seq![QUOTE]
}

/// The encoded tail of a string list: a comma before each further element.
pub open spec fn ser_rest(l: Seq<Seq<u8>>) -> Seq<u8>
    decreases l.len(),
{
    if l.len() == 0 {
        Seq::empty()
    } else {
        seq![COMMA] + ser_string(l[0]) + ser_rest(l.skip(1))
    }
}

/// The encoded elements of a string list, without the brackets.
pub open spec fn ser_elems(l: Seq<Seq<u8>>) -> Seq<u8> {
    if l.len() == 0 {
        Seq::empty()
    } else {
        ser_string(l[0]) + ser_rest(l.skip(1))
    }
}

/// The object's opening through the list's opening bracket: `{"avatars":[`.
pub open spec fn lit_open() -> Seq<u8> {
    seq![LBRACE, QUOTE, 97u8, 118u8, 97u8, 116u8, 97u8, 114u8, 115u8, QUOTE, COLON, LBRACKET]
}

/// The separator between the list and the second field: `,"current":`.
pub open spec fn lit_cur() -> Seq<u8> {
    seq![COMMA, QUOTE, 99u8, 117u8, 114u8, 114u8, 101u8, 110u8, 116u8, QUOTE, COLON]
}

/// The full canonical encoding of a state.
pub open spec fn spec_encode(pool: Seq<Seq<u8>>, current: Seq<u8>) -> Seq<u8> {
    lit_open() + ser_elems(pool) + seq![RBRACKET] + lit_cur() + ser_string(current) + seq![RBRACE]
}

/// The digit value of a lower-case hex character, if it is one.
pub open spec fn hex_val(c: u8) -> Option<u8> {
    if 48 <= c && c <= 57 {
        Some((c - 48) as u8)
    } else if 97 <= c && c <= 102 {
        Some((c - 87) as u8)
    } else {
        None
    }
}

/// Decode string content from position `i` (just past the opening quote)
/// up to and over the closing quote: the decoded bytes and the position
/// after the closing quote.
pub open spec fn sp_chars(s: Seq<u8>, i: int) -> Option<(Seq<u8>, int)>
    decreases s.len() - i,
{
    if i < 0 || i >= s.len() {
        None
    } else if s[i] == QUOTE {
        Some((Seq::empty(), i + 1))
    } else if s[i] == BACKSLASH {
        if i + 1 < s.len() && s[i + 1] == QUOTE {
            match sp_chars(s, i + 2) {
                None => None,
                Some(r) => Some((seq![QUOTE] + r.0, r.1)),
            }
        } else if i + 1 < s.len() && s[i + 1] == BACKSLASH {
            match sp_chars(s, i + 2) {
                None => None,
                Some(r) => Some((seq![BACKSLASH] + r.0, r.1)),
            }
        } else if i + 5 < s.len() && s[i + 1] == LOWER_U && s[i + 2] == DIGIT_ZERO && s[i + 3]
            == DIGIT_ZERO {
            match (hex_val(s[i + 4]), hex_val(s[i + 5])) {
                (Some(hi), Some(lo)) => match sp_chars(s, i + 6) {
                    None => None,
                    Some(r) => Some((seq![(hi * 16 + lo) as u8] + r.0, r.1)),
                },
                _ => None,
            }
        } else {
            None
        }
    } else if s[i] >= 32 {
        match sp_chars(s, i + 1) {
            None => None,
            Some(r) => Some((seq![s[i]] + r.0, r.1)),
        }
    } else {
        None
    }
}

/// Decode a quoted string starting at `i`.
pub open spec fn sp_string(s: Seq<u8>, i: int) -> Option<(Seq<u8>, int)> {
    if 0 <= i && i < s.len() && s[i] == QUOTE {
        sp_chars(s, i + 1)
    } else {
        None
    }
}

pub proof fn lemma_sp_chars_pos(s: Seq<u8>, i: int)
    ensures
        sp_chars(s, i) matches Some(r) ==> i + 1 <= r.1 <= s.len(),
    decreases s.len() - i,
{
    if 0 <= i && i < s.len() {
        lemma_sp_chars_pos(s, i + 1);
        if i + 1 < s.len() {
            lemma_sp_chars_pos(s, i + 2);
        }
        if i + 5 < s.len() {
            lemma_sp_chars_pos(s, i + 6);
        }
    }
}

pub proof fn lemma_sp_string_pos(s: Seq<u8>, i: int)
    ensures
        sp_string(s, i) matches Some(r) ==> i + 2 <= r.1 <= s.len(),
{
    lemma_sp_chars_pos(s, i + 1);
}

/// Decode the tail of the string list: either the closing bracket, or a
/// comma, one string, and the rest.
pub open spec fn sp_rest(s: Seq<u8>, i: int) -> Option<(Seq<Seq<u8>>, int)>
    decreases s.len() - i,
    via sp_rest_dec
{
    if i < 0 || i >= s.len() {
        None
    } else if s[i] == RBRACKET {
        Some((Seq::empty(), i + 1))
    } else if s[i] == COMMA {
        match sp_string(s, i + 1) {
            None => None,
            Some(r) => match sp_rest(s, r.1) {
                None => None,
                Some(t) => Some((seq![r.0] + t.0, t.1)),
            },
        }
    } else {
        None
    }
}

#[via_fn]
proof fn sp_rest_dec(s: Seq<u8>, i: int) {
    if 0 <= i && i < s.len() {
        lemma_sp_string_pos(s, i + 1);
    }
}

/// Decode the string list from just past the opening bracket, over the
/// closing bracket.
pub open spec fn sp_elems(s: Seq<u8>, i: int) -> Option<(Seq<Seq<u8>>, int)> {
    if i < 0 || i >= s.len() {
        None
    } else if s[i] == RBRACKET {
        Some((Seq::empty(), i + 1))
    } else {
        match sp_string(s, i) {
            None => None,
            Some(r) => match sp_rest(s, r.1) {
                None => None,
                Some(t) => Some((seq![r.0] + t.0, t.1)),
            },
        }
    }
}

/// `l` occurs in `s` at position `i`.
pub open spec fn lit_at(s: Seq<u8>, i: int, l: Seq<u8>) -> bool {
    0 <= i && i + l.len() <= s.len() && (forall|k: int| 0 <= k < l.len() ==> s[i + k] == l[k])
}

/// Decode a whole state file: the pool and the current path, or nothing
/// where the bytes are not a canonical encoding.
pub open spec fn sp_state(s: Seq<u8>) -> Option<(Seq<Seq<u8>>, Seq<u8>)> {
    if !lit_at(s, 0, lit_open()) {
        None
    } else {
        match sp_elems(s, 12) {
            None => None,
            Some(r) => if !lit_at(s, r.1, lit_cur()) {
                None
            } else {
                match sp_string(s, r.1 + 11) {
                    None => None,
                    Some(t) => if t.1 == s.len() - 1 && s[t.1] == RBRACE {
                        Some((r.0, t.0))
                    } else {
                        None
                    },
                }
            },
        }
    }
}

pub proof fn lemma_esc_append(a: Seq<u8>, b: Seq<u8>)
    ensures
        esc(a + b) == esc(a) + esc(b),
    decreases a.len(),
{
    if a.len() == 0 {
        assert(a + b =~= b);
        assert(esc(a) + esc(b) =~= esc(b));
    } else {
        assert((a + b).skip(1) =~= a.skip(1) + b);
        lemma_esc_append(a.skip(1), b);
        assert((a + b)[0] == a[0]);
        assert(esc(a + b) =~= esc(a) + esc(b));
    }
}

pub proof fn lemma_esc_one(b: u8)
    ensures
        esc(seq![b]) == esc_byte(b),
{
    assert(seq![b].skip(1) =~= Seq::<u8>::empty());
    assert(esc(Seq::<u8>::empty()) =~= Seq::<u8>::empty());
    assert(seq![b][0] == b);
    assert(esc(seq![b]) =~= esc_byte(b));
}

pub proof fn lemma_ser_rest_push(l: Seq<Seq<u8>>, x: Seq<u8>)
    ensures
        ser_rest(l.push(x)) == ser_rest(l) + seq![COMMA] + ser_string(x),
    decreases l.len(),
{
    if l.len() == 0 {
        assert(l.push(x).skip(1) =~= Seq::<Seq<u8>>::empty());
        assert(ser_rest(Seq::<Seq<u8>>::empty()) =~= Seq::<u8>::empty());
        assert(l.push(x)[0] == x);
        assert(ser_rest(l.push(x)) =~= ser_rest(l) + seq![COMMA] + ser_string(x));
    } else {
        assert(l.push(x).skip(1) =~= l.skip(1).push(x));
        lemma_ser_rest_push(l.skip(1), x);
        assert(l.push(x)[0] == l[0]);
        assert(ser_rest(l.push(x)) =~= ser_rest(l) + seq![COMMA] + ser_string(x));
    }
}

pub proof fn lemma_ser_elems_push(l: Seq<Seq<u8>>, x: Seq<u8>)
    ensures
        l.len() == 0 ==> ser_elems(l.push(x)) == ser_elems(l) + ser_string(x),
        l.len() > 0 ==> ser_elems(l.push(x)) == ser_elems(l) + seq![COMMA] + ser_string(x),
{
    if l.len() == 0 {
        assert(l.push(x).skip(1) =~= Seq::<Seq<u8>>::empty());
        assert(ser_rest(Seq::<Seq<u8>>::empty()) =~= Seq::<u8>::empty());
        assert(l.push(x)[0] == x);
        assert(ser_elems(l.push(x)) =~= ser_elems(l) + ser_string(x));
    } else {
        assert(l.push(x).skip(1) =~= l.skip(1).push(x));
        lemma_ser_rest_push(l.skip(1), x);
        assert(l.push(x)[0] == l[0]);
        assert(ser_elems(l.push(x)) =~= ser_elems(l) + seq![COMMA] + ser_string(x));
    }
}

fn push_all(out: &mut Vec<u8>, src: &Vec<u8>)
    ensures
        final(out)@ == old(out)@ + src@,
{
    let mut j: usize = 0;
    while j < src.len()
        invariant
            j <= src.len(),
            out@ == old(out)@ + src@.take(j as int),
        decreases src.len() - j,
    {
        out.push(src[j]);
        proof {
            assert(src@.take(j as int + 1) =~= src@.take(j as int).push(src@[j as int]));
            assert(out@ =~= old(out)@ + src@.take(j as int + 1));
        }
        j += 1;
    }
    proof {
        assert(src@.take(src@.len() as int) =~= src@);
    }
}

fn lit_open_vec() -> (r: Vec<u8>)
    ensures
        r@ == lit_open(),
{
    let mut v: Vec<u8> = Vec::new();
    v.push(LBRACE);
    v.push(QUOTE);
    v.push(97);
    v.push(118);
    v.push(97);
    v.push(116);
    v.push(97);
    v.push(114);
    v.push(115);
    v.push(QUOTE);
    v.push(COLON);
    v.push(LBRACKET);
    proof {
        assert(v@ =~= lit_open());
    }
    v
}

fn lit_cur_vec() -> (r: Vec<u8>)
    ensures
        r@ == lit_cur(),
{
    let mut v: Vec<u8> = Vec::new();
    v.push(COMMA);
    v.push(QUOTE);
    v.push(99);
    v.push(117);
    v.push(114);
    v.push(114);
    v.push(101);
    v.push(110);
    v.push(116);
    v.push(QUOTE);
    v.push(COLON);
    proof {
        assert(v@ =~= lit_cur());
    }
    v
}

fn push_escaped(out: &mut Vec<u8>, x: &Vec<u8>)
    ensures
        final(out)@ == old(out)@ + esc(x@),
{
    let mut j: usize = 0;
    while j < x.len()
        invariant
            j <= x.len(),
            out@ == old(out)@ + esc(x@.take(j as int)),
        decreases x.len() - j,
    {
        let b = x[j];
        if b == QUOTE {
            out.push(BACKSLASH);
            out.push(QUOTE);
        } else if b == BACKSLASH {
            out.push(BACKSLASH);
            out.push(BACKSLASH);
        } else if b < 32 {
            proof {
                assert(b / 16 < 16 && b % 16 < 16) by (nonlinear_arith);
            }
            out.push(BACKSLASH);
            out.push(LOWER_U);
            out.push(DIGIT_ZERO);
            out.push(DIGIT_ZERO);
            let hi = b / 16;
            let lo = b % 16;
            out.push(if hi < 10 { 48 + hi } else { 87 + hi });
            out.push(if lo < 10 { 48 + lo } else { 87 + lo });
        } else {
            out.push(b);
        }
        proof {
            assert(x@.take(j as int + 1) =~= x@.take(j as int) + seq![x@[j as int]]);
            lemma_esc_append(x@.take(j as int), seq![x@[j as int]]);
            lemma_esc_one(x@[j as int]);
            assert(out@ =~= old(out)@ + esc(x@.take(j as int + 1)));
        }
        j += 1;
    }
    proof {
        assert(x@.take(x@.len() as int) =~= x@);
    }
}

/// Encode a state as the canonical bytes of the state file.
pub fn encode_state(pool: &Vec<Vec<u8>>, current: &Vec<u8>) -> (r: Vec<u8>)
    ensures
        r@ == spec_encode(views_of(pool@), current@),
{
    let mut out: Vec<u8> = Vec::new();
    let lo = lit_open_vec();
    push_all(&mut out, &lo);
    let mut i: usize = 0;
    while i < pool.len()
        invariant
            i <= pool.len(),
            out@ == lit_open() + ser_elems(views_of(pool@).take(i as int)),
        decreases pool.len() - i,
    {
        if i > 0 {
            out.push(COMMA);
        }
        out.push(QUOTE);
        push_escaped(&mut out, &pool[i]);
        out.push(QUOTE);
        proof {
            lemma_ser_elems_push(views_of(pool@).take(i as int), pool@[i as int]@);
            assert(views_of(pool@).take(i as int + 1) =~= views_of(pool@).take(i as int).push(
                pool@[i as int]@,
            ));
            assert(out@ =~= lit_open() + ser_elems(views_of(pool@).take(i as int + 1)));
        }
        i += 1;
    }
    proof {
        assert(views_of(pool@).take(pool@.len() as int) =~= views_of(pool@));
    }
    out.push(RBRACKET);
    let lc = lit_cur_vec();
    push_all(&mut out, &lc);
    out.push(QUOTE);
    push_escaped(&mut out, current);
    out.push(QUOTE);
    out.push(RBRACE);
    proof {
        assert(out@ =~= spec_encode(views_of(pool@), current@));
    }
    out
}

fn hexv(c: u8) -> (r: Option<u8>)
    ensures
        r == hex_val(c),
{
    if 48 <= c && c <= 57 {
        Some(c - 48)
    } else if 97 <= c && c <= 102 {
        Some(c - 87)
    } else {
        None
    }
}

fn px_chars(s: &Vec<u8>, i: usize) -> (r: Option<(Vec<u8>, usize)>)
    ensures
        match r {
            Some(p) => sp_chars(s@, i as int) == Some((p.0@, p.1 as int)),
            None => sp_chars(s@, i as int) is None,
        },
    decreases s@.len() - i,
{
    if i >= s.len() {
        return None;
    }
    let c = s[i];
    if c == QUOTE {
        Some((Vec::new(), i + 1))
    } else if c == BACKSLASH {
        if s.len() - i > 1 && (s[i + 1] == QUOTE || s[i + 1] == BACKSLASH) {
            let e = s[i + 1];
            match px_chars(s, i + 2) {
                None => None,
                Some((mut v, j)) => {
                    let ghost tail = v@;
                    v.insert(0, e);
                    proof {
                        assert(v@ =~= seq![e] + tail);
                    }
                    Some((v, j))
                },
            }
        } else if s.len() - i > 5 && s[i + 1] == LOWER_U && s[i + 2] == DIGIT_ZERO && s[i + 3]
            == DIGIT_ZERO {
            let h1 = hexv(s[i + 4]);
            let h2 = hexv(s[i + 5]);
            match (h1, h2) {
                (Some(hi), Some(lo)) => {
                    let b = hi * 16 + lo;
                    match px_chars(s, i + 6) {
                        None => None,
                        Some((mut v, j)) => {
                            let ghost tail = v@;
                            v.insert(0, b);
                            proof {
                                assert(v@ =~= seq![b] + tail);
                            }
                            Some((v, j))
                        },
                    }
                },
                _ => None,
            }
        } else {
            None
        }
    } else if c >= 32 {
        match px_chars(s, i + 1) {
            None => None,
            Some((mut v, j)) => {
                let ghost tail = v@;
                v.insert(0, c);
                proof {
                    assert(v@ =~= seq![c] + tail);
                }
                Some((v, j))
            },
        }
    } else {
        None
    }
}

fn px_string(s: &Vec<u8>, i: usize) -> (r: Option<(Vec<u8>, usize)>)
    ensures
        match r {
            Some(p) => sp_string(s@, i as int) == Some((p.0@, p.1 as int)),
            None => sp_string(s@, i as int) is None,
        },
{
    if i < s.len() && s[i] == QUOTE {
        px_chars(s, i + 1)
    } else {
        None
    }
}

fn px_rest(s: &Vec<u8>, i: usize) -> (r: Option<(Vec<Vec<u8>>, usize)>)
    ensures
        match r {
            Some(p) => sp_rest(s@, i as int) == Some((views_of(p.0@), p.1 as int)),
            None => sp_rest(s@, i as int) is None,
        },
    decreases s@.len() - i,
{
    if i >= s.len() {
        return None;
    }
    let c = s[i];
    if c == RBRACKET {
        let l: Vec<Vec<u8>> = Vec::new();
        proof {
            assert(views_of(l@) =~= Seq::<Seq<u8>>::empty());
        }
        Some((l, i + 1))
    } else if c == COMMA {
        match px_string(s, i + 1) {
            None => None,
            Some((x, j)) => {
                proof {
                    lemma_sp_string_pos(s@, i as int + 1);
                }
                match px_rest(s, j) {
                    None => None,
                    Some((mut l, k)) => {
                        let ghost tail = l@;
                        l.insert(0, x);
                        proof {
                            assert(views_of(l@) =~= seq![x@] + views_of(tail));
                        }
                        Some((l, k))
                    },
                }
            },
        }
    } else {
        None
    }
}

fn px_elems(s: &Vec<u8>, i: usize) -> (r: Option<(Vec<Vec<u8>>, usize)>)
    ensures
        match r {
            Some(p) => sp_elems(s@, i as int) == Some((views_of(p.0@), p.1 as int)),
            None => sp_elems(s@, i as int) is None,
        },
{
    if i >= s.len() {
        return None;
    }
    let c = s[i];
    if c == RBRACKET {
        let l: Vec<Vec<u8>> = Vec::new();
        proof {
            assert(views_of(l@) =~= Seq::<Seq<u8>>::empty());
        }
        Some((l, i + 1))
    } else {
        match px_string(s, i) {
            None => None,
            Some((x, j)) => {
                proof {
                    lemma_sp_string_pos(s@, i as int);
                }
                match px_rest(s, j) {
                    None => None,
                    Some((mut l, k)) => {
                        let ghost tail = l@;
                        l.insert(0, x);
                        proof {
                            assert(views_of(l@) =~= seq![x@] + views_of(tail));
                        }
                        Some((l, k))
                    },
                }
            },
        }
    }
}

fn bytes_at(s: &Vec<u8>, i: usize, l: &Vec<u8>) -> (r: bool)
    ensures
        r == lit_at(s@, i as int, l@),
{
    if i > s.len() || s.len() - i < l.len() {
        return false;
    }
    let mut k: usize = 0;
    while k < l.len()
        invariant
            k <= l.len(),
            i + l.len() <= s.len(),
            forall|m: int| 0 <= m < k ==> s@[i + m] == l@[m],
        decreases l.len() - k,
    {
        if s[i + k] != l[k] {
            return false;
        }
        k += 1;
    }
    true
}

/// Decode the canonical bytes of a state file back into the pool and the
/// current path; `None` exactly where the bytes are not a canonical
/// encoding of any state.
pub fn decode_state(s: &Vec<u8>) -> (r: Option<(Vec<Vec<u8>>, Vec<u8>)>)
    ensures
        match r {
            Some(p) => sp_state(s@) == Some((views_of(p.0@), p.1@)),
            None => sp_state(s@) is None,
        },
{
    let lo = lit_open_vec();
    if !bytes_at(s, 0, &lo) {
        return None;
    }
    match px_elems(s, 12) {
        None => None,
        Some((pool, j)) => {
            let lc = lit_cur_vec();
            if !bytes_at(s, j, &lc) {
                return None;
            }
            let n = s.len();
            proof {
                assert(lit_cur().len() == 11);
                assert(lit_at(s@, j as int, lit_cur()));
                assert(j as int + 11 <= n);
            }
            match px_string(s, j + 11) {
                None => None,
                Some((cur, k)) => {
                    if k < s.len() && s.len() - k == 1 && s[k] == RBRACE {
                        Some((pool, cur))
                    } else {
                        None
                    }
                },
            }
        },
    }
}

proof fn lemma_skip_shift(s: Seq<u8>, i: int, a: Seq<u8>, b: Seq<u8>)
    requires
        0 <= i <= s.len(),
        s.skip(i) == a + b,
    ensures
        i + a.len() <= s.len(),
        s.skip(i + a.len()) == b,
        forall|k: int| 0 <= k < a.len() ==> s[i + k] == a[k],
        forall|k: int| i <= k < i + a.len() ==> #[trigger] s[k] == a[k - i],
{
    assert(s.skip(i).len() == s.len() - i);
    assert forall|k: int| 0 <= k < a.len() implies s[i + k] == a[k] by {
        assert(s.skip(i)[k] == s[i + k]);
        assert((a + b)[k] == a[k]);
    }
    assert forall|k: int| i <= k < i + a.len() implies #[trigger] s[k] == a[k - i] by {
        assert(s.skip(i)[k - i] == s[k]);
        assert((a + b)[k - i] == a[k - i]);
    }
    assert forall|k: int| 0 <= k < b.len() implies s.skip(i + a.len())[k] == b[k] by {
        assert(s.skip(i)[a.len() + k] == s[i + a.len() + k]);
        assert((a + b)[a.len() + k] == b[k]);
        assert(s.skip(i + a.len())[k] == s[i + a.len() + k]);
    }
    assert(s.skip(i + a.len()) =~= b);
}

proof fn lemma_sp_chars_ser(s: Seq<u8>, i: int, x: Seq<u8>, suf: Seq<u8>)
    requires
        0 <= i <= s.len(),
        s.skip(i) == esc(x) + seq![QUOTE] + suf,
    ensures
        sp_chars(s, i) == Some((x, i + esc(x).len() + 1)),
    decreases x.len(),
{
    assert(s.skip(i).len() == s.len() - i);
    if x.len() == 0 {
        assert(esc(x) + seq![QUOTE] + suf =~= seq![QUOTE] + (suf));
        lemma_skip_shift(s, i, seq![QUOTE], suf);
        assert(s[i] == QUOTE);
        assert(x =~= Seq::<u8>::empty());
    } else {
        let b = x[0];
        let x1 = x.skip(1);
        assert(esc(x) == esc_byte(b) + esc(x1));
        let tail = esc(x1) + seq![QUOTE] + suf;
        assert(s.skip(i) =~= esc_byte(b) + tail);
        lemma_skip_shift(s, i, esc_byte(b), tail);
        let j = i + esc_byte(b).len() as int;
        lemma_sp_chars_ser(s, j, x1, suf);
        assert(seq![b] + x1 =~= x);
        if b == QUOTE {
            assert(s[i] == BACKSLASH && s[i + 1] == QUOTE);
            assert(i + 1 < s.len());
            assert(sp_chars(s, i) == Some((x, i + esc(x).len() + 1)));
        } else if b == BACKSLASH {
            assert(s[i] == BACKSLASH && s[i + 1] == BACKSLASH);
            assert(i + 1 < s.len());
            assert(sp_chars(s, i) == Some((x, i + esc(x).len() + 1)));
        } else if b < 32 {
            assert(b / 16 < 16 && b % 16 < 16) by (nonlinear_arith);
            assert(s[i] == BACKSLASH && s[i + 1] == LOWER_U && s[i + 2] == DIGIT_ZERO && s[i + 3]
                == DIGIT_ZERO && s[i + 4] == hex_digit(b / 16) && s[i + 5] == hex_digit(b % 16));
            assert(i + 5 < s.len());
            assert(hex_val(hex_digit(b / 16)) == Some(b / 16));
            assert(hex_val(hex_digit(b % 16)) == Some(b % 16));
            assert(b == 16 * (b / 16) + (b % 16)) by (nonlinear_arith);
            assert(sp_chars(s, i) == Some((x, i + esc(x).len() + 1)));
        } else {
            assert(s[i] == b);
            assert(sp_chars(s, i) == Some((x, i + esc(x).len() + 1)));
        }
    }
}

proof fn lemma_sp_string_ser(s: Seq<u8>, i: int, x: Seq<u8>, suf: Seq<u8>)
    requires
        0 <= i <= s.len(),
        s.skip(i) == ser_string(x) + suf,
    ensures
        sp_string(s, i) == Some((x, i + ser_string(x).len())),
{
    assert(s.skip(i).len() == s.len() - i);
    let tail = esc(x) + seq![QUOTE] + suf;
    assert(s.skip(i) =~= seq![QUOTE] + tail);
    lemma_skip_shift(s, i, seq![QUOTE], tail);
    assert(s[i] == QUOTE);
    assert(s.skip(i + 1) =~= esc(x) + seq![QUOTE] + suf);
    lemma_sp_chars_ser(s, i + 1, x, suf);
}

proof fn lemma_sp_rest_ser(s: Seq<u8>, i: int, l: Seq<Seq<u8>>, suf: Seq<u8>)
    requires
        0 <= i <= s.len(),
        s.skip(i) == ser_rest(l) + seq![RBRACKET] + suf,
    ensures
        sp_rest(s, i) == Some((l, i + ser_rest(l).len() + 1)),
    decreases l.len(),
{
    assert(s.skip(i).len() == s.len() - i);
    if l.len() == 0 {
        assert(ser_rest(l) + seq![RBRACKET] + suf =~= seq![RBRACKET] + suf);
        lemma_skip_shift(s, i, seq![RBRACKET], suf);
        assert(s[i] == RBRACKET);
        assert(l =~= Seq::<Seq<u8>>::empty());
    } else {
        let l1 = l.skip(1);
        let rest2 = ser_rest(l1) + seq![RBRACKET] + suf;
        assert(s.skip(i) =~= seq![COMMA] + (ser_string(l[0]) + rest2));
        lemma_skip_shift(s, i, seq![COMMA], ser_string(l[0]) + rest2);
        assert(s[i] == COMMA);
        lemma_sp_string_ser(s, i + 1, l[0], rest2);
        lemma_skip_shift(s, i + 1, ser_string(l[0]), rest2);
        let j = i + 1 + ser_string(l[0]).len() as int;
        lemma_sp_rest_ser(s, j, l1, suf);
        assert(seq![l[0]] + l1 =~= l);
        assert(sp_rest(s, i) == Some((l, i + ser_rest(l).len() + 1)));
    }
}

proof fn lemma_sp_elems_ser(s: Seq<u8>, i: int, l: Seq<Seq<u8>>, suf: Seq<u8>)
    requires
        0 <= i <= s.len(),
        s.skip(i) == ser_elems(l) + seq![RBRACKET] + suf,
    ensures
        sp_elems(s, i) == Some((l, i + ser_elems(l).len() + 1)),
{
    assert(s.skip(i).len() == s.len() - i);
    if l.len() == 0 {
        assert(ser_elems(l) + seq![RBRACKET] + suf =~= seq![RBRACKET] + suf);
        lemma_skip_shift(s, i, seq![RBRACKET], suf);
        assert(s[i] == RBRACKET);
        assert(l =~= Seq::<Seq<u8>>::empty());
    } else {
        let l1 = l.skip(1);
        let rest2 = ser_rest(l1) + seq![RBRACKET] + suf;
        assert(s.skip(i) =~= ser_string(l[0]) + rest2);
        lemma_sp_string_ser(s, i, l[0], rest2);
        lemma_skip_shift(s, i, ser_string(l[0]), rest2);
        assert(s[i] == QUOTE);
        let j = i + ser_string(l[0]).len() as int;
        lemma_sp_rest_ser(s, j, l1, suf);
        assert(seq![l[0]] + l1 =~= l);
        assert(sp_elems(s, i) == Some((l, i + ser_elems(l).len() + 1)));
    }
}

/// Decoding is the inverse of encoding: the canonical bytes of any state
/// decode back to exactly that state.
#[verifier::rlimit(50)]
pub proof fn lemma_decode_encode(pool: Seq<Seq<u8>>, current: Seq<u8>)
    ensures
        sp_state(spec_encode(pool, current)) == Some((pool, current)),
{
    let s = spec_encode(pool, current);
    let suf1 = lit_cur() + (ser_string(current) + seq![RBRACE]);
    assert(s.skip(0) =~= lit_open() + (ser_elems(pool) + (seq![RBRACKET] + suf1)));
    lemma_skip_shift(s, 0, lit_open(), ser_elems(pool) + (seq![RBRACKET] + suf1));
    assert(lit_at(s, 0, lit_open()));
    assert(s.skip(12) =~= ser_elems(pool) + seq![RBRACKET] + suf1);
    lemma_sp_elems_ser(s, 12, pool, suf1);
    lemma_skip_shift(s, 12, ser_elems(pool) + seq![RBRACKET], suf1);
    let j = 12 + ser_elems(pool).len() as int + 1;
    assert(s.skip(j) =~= lit_cur() + (ser_string(current) + seq![RBRACE]));
    lemma_skip_shift(s, j, lit_cur(), ser_string(current) + seq![RBRACE]);
    assert(lit_at(s, j, lit_cur()));
    lemma_sp_string_ser(s, j + 11, current, seq![RBRACE]);
    lemma_skip_shift(s, j + 11, ser_string(current), seq![RBRACE]);
    let k = j + 11 + ser_string(current).len() as int;
    assert(s.skip(k).len() == 1);
    assert(s[k] == s.skip(k)[0]);
    assert(s[k] == RBRACE);
    assert(k == s.len() - 1);
    assert(sp_state(s) == Some((pool, current)));
}

} // verus!
