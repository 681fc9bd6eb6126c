//! The mesh loader: line and token splitting over the input bytes, exact
//! parsing of the count and coordinate tokens, and the assembly of a
//! `Mesh`.
//!
//! The text format is line-oriented: a vertex count, that many coordinate
//! lines of three decimal literals each, a triangle count, and every
//! remaining line an index triple. Coordinate tokens are plain decimal
//! literals with an optional sign and at most one point; they are kept
//! exact, so a token whose digits exceed what exact evaluation can hold
//! is rejected like any other malformed token.

use vstd::prelude::*;

use crate::mesh::{Mesh, MeshError, Triangle, Vec3, V3, COORD_LIMIT, COUNT_LIMIT, SCALE_LIMIT};

verus! {

/// Largest coordinate mantissa (the token's digits read as one integer)
/// that exact parsing accepts.
pub const MANT_LIMIT: u128 = 1_000_000_000_000_000_000;

pub open spec fn is_nl(b: u8) -> bool {
    b == 10
}

pub open spec fn is_ws(b: u8) -> bool {
    b == 32 || b == 9 || b == 13
}

pub open spec fn is_digit(b: u8) -> bool {
    48 <= b <= 57
}

/// The input split at newlines, as `str::lines` splits: no trailing empty
/// line when the input ends with a newline.
pub open spec fn spec_lines(s: Seq<u8>) -> Seq<Seq<u8>>
    decreases s.len(),
{
    if s.len() == 0 {
        Seq::empty()
    } else if is_nl(s[0]) {
        seq![Seq::<u8>::empty()] + spec_lines(s.skip(1))
    } else {
        let rest = spec_lines(s.skip(1));
        if rest.len() == 0 {
            seq![seq![s[0]]]
        } else {
            seq![seq![s[0]] + rest[0]] + rest.skip(1)
        }
    }
}

/// A line split at runs of blanks, as `str::split_whitespace` splits:
/// no empty tokens.
pub open spec fn spec_tokens(s: Seq<u8>) -> Seq<Seq<u8>>
    decreases s.len(),
{
    if s.len() == 0 {
        Seq::empty()
    } else if is_ws(s[0]) {
        spec_tokens(s.skip(1))
    } else {
        let rest = spec_tokens(s.skip(1));
        if s.len() > 1 && !is_ws(s[1]) {
            seq![seq![s[0]] + rest[0]] + rest.skip(1)
        } else {
            seq![seq![s[0]]] + rest
        }
    }
}

/// The views of a list of byte vectors.
pub open spec fn view_seq(vs: Seq<Vec<u8>>) -> Seq<Seq<u8>> {
    vs.map_values(|v: Vec<u8>| v@)
}

/// The value of a digit string read as a base-ten natural number.
pub open spec fn nat_of(s: Seq<u8>) -> nat
    decreases s.len(),
{
    if s.len() == 0 {
        0
    } else {
        nat_of(s.drop_last()) * 10 + (s.last() - 48) as nat
    }
}

pub open spec fn all_digits(s: Seq<u8>) -> bool {
    forall|i: int| 0 <= i < s.len() ==> is_digit(#[trigger] s[i])
}

/// A valid non-negative integer token: one or more decimal digits.
pub open spec fn is_nat_token(s: Seq<u8>) -> bool {
    s.len() > 0 && all_digits(s)
}

/// A valid integer token whose value the machine can index with.
pub open spec fn nat_token_fits(s: Seq<u8>) -> bool {
    is_nat_token(s) && nat_of(s) <= usize::MAX
}

/// The digits of a token, in order, with the sign and the point removed.
pub open spec fn digits_of(s: Seq<u8>) -> Seq<u8>
    decreases s.len(),
{
    if s.len() == 0 {
        Seq::empty()
    } else if is_digit(s.last()) {
        digits_of(s.drop_last()).push(s.last())
    } else {
        digits_of(s.drop_last())
    }
}

/// How many decimal points a token holds.
pub open spec fn dots_of(s: Seq<u8>) -> nat
    decreases s.len(),
{
    if s.len() == 0 {
        0
    } else {
        dots_of(s.drop_last()) + if s.last() == 46 { 1nat } else { 0nat }
    }
}

/// How many digits follow the decimal point.
pub open spec fn scale_of(s: Seq<u8>) -> nat
    decreases s.len(),
{
    if s.len() == 0 {
        0
    } else if s.last() == 46 {
        0
    } else if dots_of(s.drop_last()) > 0 {
        scale_of(s.drop_last()) + 1
    } else {
        0
    }
}

/// The token with a leading sign removed.
pub open spec fn dec_body(s: Seq<u8>) -> Seq<u8> {
    if s.len() > 0 && (s[0] == 43 || s[0] == 45) {
        s.skip(1)
    } else {
        s
    }
}

pub open spec fn dec_neg(s: Seq<u8>) -> bool {
    s.len() > 0 && s[0] == 45
}

/// A valid real-number token: an optional sign, then digits with at most
/// one decimal point among them, and at least one digit.
pub open spec fn is_dec_token(s: Seq<u8>) -> bool {
    let b = dec_body(s);
    &&& b.len() > 0
    &&& (forall|i: int| 0 <= i < b.len() ==> is_digit(#[trigger] b[i]) || b[i] == 46)
    &&& dots_of(b) <= 1
    &&& digits_of(b).len() > 0
}

/// The token's digits read as one integer, ignoring the point.
pub open spec fn dec_mant(s: Seq<u8>) -> nat {
    nat_of(digits_of(dec_body(s)))
}

/// The token's count of fractional digits.
pub open spec fn dec_scale(s: Seq<u8>) -> nat {
    scale_of(dec_body(s))
}

/// The token's signed mantissa: the token's value is
/// `dec_signed(s) / 10^dec_scale(s)`.
pub open spec fn dec_signed(s: Seq<u8>) -> int {
    if dec_neg(s) {
        -(dec_mant(s) as int)
    } else {
        dec_mant(s) as int
    }
}

/// A valid real token small enough for exact evaluation.
pub open spec fn dec_token_fits(s: Seq<u8>) -> bool {
    is_dec_token(s) && dec_mant(s) <= MANT_LIMIT && dec_scale(s) <= SCALE_LIMIT
}

pub open spec fn pow10(e: nat) -> nat
    decreases e,
{
    if e == 0 {
        1
    } else {
        10 * pow10((e - 1) as nat)
    }
}

/// Splitting off a first line: when the first newline of `s` stands at
/// `k`, the lines of `s` are `s.take(k)` followed by the lines of the
/// remainder.
pub proof fn lemma_lines_split(s: Seq<u8>, k: int)
    requires
        0 <= k < s.len(),
        is_nl(s[k]),
        forall|j: int| 0 <= j < k ==> !is_nl(#[trigger] s[j]),
    ensures
        spec_lines(s) == seq![s.take(k)] + spec_lines(s.skip(k + 1)),
    decreases k,
{
    if k == 0 {
        assert(s.take(0) =~= Seq::<u8>::empty());
    } else {
        assert(s.skip(1)[k - 1] == s[k]);
        assert(forall|j: int| 0 <= j < k - 1 ==> !is_nl(#[trigger] s.skip(1)[j]));
        lemma_lines_split(s.skip(1), k - 1);
        let rest = spec_lines(s.skip(1));
        assert(s.skip(1).skip(k) =~= s.skip(k + 1));
        assert(rest == seq![s.skip(1).take(k - 1)] + spec_lines(s.skip(k + 1)));
        assert(rest.len() > 0);
        assert(seq![s[0]] + rest[0] =~= s.take(k));
        assert(rest.skip(1) =~= spec_lines(s.skip(k + 1)));
        assert(spec_lines(s) =~= seq![s.take(k)] + spec_lines(s.skip(k + 1)));
    }
}

/// A nonempty remainder without a newline is one whole line.
proof fn lemma_lines_whole(s: Seq<u8>)
    requires
        s.len() > 0,
        forall|j: int| 0 <= j < s.len() ==> !is_nl(#[trigger] s[j]),
    ensures
        spec_lines(s) == seq![s],
    decreases s.len(),
{
    if s.len() == 1 {
        assert(s.skip(1) =~= Seq::<u8>::empty());
        assert(spec_lines(Seq::<u8>::empty()) == Seq::<Seq<u8>>::empty());
        assert(seq![s[0]] =~= s);
        assert(spec_lines(s) =~= seq![s]);
    } else {
        assert(forall|j: int| 0 <= j < s.skip(1).len() ==> !is_nl(#[trigger] s.skip(1)[j]));
        lemma_lines_whole(s.skip(1));
        assert(seq![s[0]] + s.skip(1) =~= s);
        assert(spec_lines(s) =~= seq![s]);
    }
}

/// Splitting off a first token: when the blanks-free prefix of `s` ends
/// at `k` (the end of `s` or a blank), the tokens of `s` are `s.take(k)`
/// followed by the tokens of the remainder.
pub proof fn lemma_tokens_word(s: Seq<u8>, k: int)
    requires
        0 < k <= s.len(),
        forall|j: int| 0 <= j < k ==> !is_ws(#[trigger] s[j]),
        k == s.len() || is_ws(s[k]),
    ensures
        spec_tokens(s) == seq![s.take(k)] + spec_tokens(s.skip(k)),
    decreases k,
{
    if k == 1 {
        assert(s.take(1) =~= seq![s[0]]);
        if s.len() == 1 {
            assert(s.skip(1) =~= Seq::<u8>::empty());
        }
    } else {
        assert(s.skip(1)[k - 2] == s[k - 1]);
        assert(forall|j: int| 0 <= j < k - 1 ==> !is_ws(#[trigger] s.skip(1)[j]));
        if k < s.len() {
            assert(s.skip(1)[k - 1] == s[k]);
        }
        lemma_tokens_word(s.skip(1), k - 1);
        let rest = spec_tokens(s.skip(1));
        assert(s.skip(1).skip(k - 1) =~= s.skip(k));
        assert(rest == seq![s.skip(1).take(k - 1)] + spec_tokens(s.skip(k)));
        assert(rest.len() > 0);
        assert(!is_ws(s[1]));
        assert(seq![s[0]] + rest[0] =~= s.take(k));
        assert(rest.skip(1) =~= spec_tokens(s.skip(k)));
        assert(spec_tokens(s) =~= seq![s.take(k)] + spec_tokens(s.skip(k)));
    }
}

/// Splits the input at newlines. Every line of the result is free of
/// newlines; a trailing newline closes the last line rather than opening
/// an empty one.
pub fn split_lines(input: &[u8]) -> (r: Vec<Vec<u8>>)
    ensures
        view_seq(r@) == spec_lines(input@),
{
    let mut out: Vec<Vec<u8>> = Vec::new();
    let mut cur: Vec<u8> = Vec::new();
    let ghost mut start: int = 0;
    let mut i: usize = 0;
    proof {
        assert(input@.skip(0) =~= input@);
        assert(view_seq(out@) =~= Seq::<Seq<u8>>::empty());
        assert(view_seq(out@) + spec_lines(input@) =~= spec_lines(input@));
    }
    while i < input.len()
        invariant
            0 <= start <= i <= input@.len(),
            cur@ == input@.subrange(start, i as int),
            forall|m: int| start <= m < i ==> !is_nl(#[trigger] input@[m]),
            spec_lines(input@) == view_seq(out@) + spec_lines(input@.skip(start)),
        decreases input@.len() - i,
    {
        let b = input[i];
        if b == 10 {
            proof {
                let rem = input@.skip(start);
                assert(rem[i - start] == input@[i as int]);
                assert(forall|j: int| 0 <= j < i - start ==> !is_nl(#[trigger] rem[j]));
                lemma_lines_split(rem, i - start);
                assert(rem.take(i - start) =~= cur@);
                assert(rem.skip(i - start + 1) =~= input@.skip(i + 1));
            }
            let ghost old_out = out@;
            out.push(cur);
            cur = Vec::new();
            proof {
                assert(view_seq(out@) =~= view_seq(old_out) + seq![input@.subrange(start, i as int)]);
                start = i + 1;
            }
        } else {
            cur.push(b);
            proof {
                assert(cur@ =~= input@.subrange(start, i + 1));
            }
        }
        i = i + 1;
    }
    if cur.len() > 0 {
        proof {
            let rem = input@.skip(start);
            assert(rem =~= cur@);
            lemma_lines_whole(rem);
        }
        let ghost old_out = out@;
        out.push(cur);
        proof {
            assert(view_seq(out@) =~= view_seq(old_out) + seq![input@.skip(start)]);
        }
    } else {
        proof {
            assert(input@.skip(start) =~= Seq::<u8>::empty());
            assert(view_seq(out@) + spec_lines(input@.skip(start)) =~= view_seq(out@));
        }
    }
    out
}

/// Splits a line at runs of blanks into its tokens.
pub fn split_tokens(line: &[u8]) -> (r: Vec<Vec<u8>>)
    ensures
        view_seq(r@) == spec_tokens(line@),
{
    let mut out: Vec<Vec<u8>> = Vec::new();
    let mut cur: Vec<u8> = Vec::new();
    let ghost mut start: int = 0;
    let mut i: usize = 0;
    proof {
        assert(line@.skip(0) =~= line@);
        assert(view_seq(out@) =~= Seq::<Seq<u8>>::empty());
        assert(view_seq(out@) + spec_tokens(line@) =~= spec_tokens(line@));
    }
    while i < line.len()
        invariant
            0 <= start <= i <= line@.len(),
            cur@ == line@.subrange(start, i as int),
            forall|m: int| start <= m < i ==> !is_ws(#[trigger] line@[m]),
            spec_tokens(line@) == view_seq(out@) + spec_tokens(line@.skip(start)),
        decreases line@.len() - i,
    {
        let b = line[i];
        if b == 32 || b == 9 || b == 13 {
            let ghost rem = line@.skip(start);
            proof {
                assert(rem[i - start] == line@[i as int]);
            }
            if cur.len() > 0 {
                proof {
                    assert(forall|j: int| 0 <= j < i - start ==> !is_ws(#[trigger] rem[j]));
                    lemma_tokens_word(rem, i - start);
                    assert(rem.take(i - start) =~= cur@);
                    assert(rem.skip(i - start) =~= line@.skip(i as int));
                    assert(line@.skip(i as int)[0] == line@[i as int]);
                    assert(line@.skip(i as int).skip(1) =~= line@.skip(i + 1));
                }
                let ghost old_out = out@;
                out.push(cur);
                cur = Vec::new();
                proof {
                    assert(view_seq(out@) =~= view_seq(old_out) + seq![line@.subrange(start, i as int)]);
                    start = i + 1;
                }
            } else {
                proof {
                    assert(rem =~= line@.skip(i as int));
                    assert(line@.skip(i as int)[0] == line@[i as int]);
                    assert(line@.skip(i as int).skip(1) =~= line@.skip(i + 1));
                    start = i + 1;
                }
            }
        } else {
            cur.push(b);
            proof {
                assert(cur@ =~= line@.subrange(start, i + 1));
            }
        }
        i = i + 1;
    }
    if cur.len() > 0 {
        proof {
            let rem = line@.skip(start);
            assert(rem =~= cur@);
            assert(forall|j: int| 0 <= j < rem.len() ==> !is_ws(#[trigger] rem[j]));
            lemma_tokens_word(rem, rem.len() as int);
            assert(rem.take(rem.len() as int) =~= rem);
            assert(rem.skip(rem.len() as int) =~= Seq::<u8>::empty());
            assert(seq![rem] + spec_tokens(Seq::<u8>::empty()) =~= seq![rem]);
        }
        let ghost old_out = out@;
        out.push(cur);
        proof {
            assert(view_seq(out@) =~= view_seq(old_out) + seq![line@.skip(start)]);
        }
    } else {
        proof {
            assert(line@.skip(start) =~= Seq::<u8>::empty());
            assert(view_seq(out@) + spec_tokens(line@.skip(start)) =~= view_seq(out@));
        }
    }
    out
}

/// A longer digit prefix never reads as a smaller number.
proof fn lemma_nat_prefix_le(s: Seq<u8>, k: int)
    requires
        0 <= k <= s.len(),
    ensures
        nat_of(s.take(k)) <= nat_of(s),
    decreases s.len() - k,
{
    if k < s.len() {
        assert(s.take(k + 1).drop_last() =~= s.take(k));
        assert(nat_of(s.take(k + 1)) >= nat_of(s.take(k)));
        lemma_nat_prefix_le(s, k + 1);
    } else {
        assert(s.take(k) =~= s);
    }
}

/// A longer token prefix never carries a smaller mantissa.
proof fn lemma_mant_prefix_le(s: Seq<u8>, k: int)
    requires
        0 <= k <= s.len(),
    ensures
        nat_of(digits_of(s.take(k))) <= nat_of(digits_of(s)),
    decreases s.len() - k,
{
    if k < s.len() {
        assert(s.take(k + 1).drop_last() =~= s.take(k));
        if is_digit(s[k]) {
            assert(digits_of(s.take(k + 1)) == digits_of(s.take(k)).push(s[k]));
            assert(digits_of(s.take(k + 1)).drop_last() =~= digits_of(s.take(k)));
            assert(nat_of(digits_of(s.take(k + 1))) >= nat_of(digits_of(s.take(k))));
        } else {
            assert(digits_of(s.take(k + 1)) == digits_of(s.take(k)));
        }
        lemma_mant_prefix_le(s, k + 1);
    } else {
        assert(s.take(k) =~= s);
    }
}

/// Parses a non-negative integer token: every byte a decimal digit and
/// the value in range of `usize`. Returns the value, or nothing when the
/// token is malformed or too large.
pub fn parse_nat_token(tok: &[u8]) -> (r: Option<usize>)
    ensures
        r is Some <==> nat_token_fits(tok@),
        r matches Some(v) ==> v == nat_of(tok@),
{
    if tok.len() == 0 {
        return None;
    }
    let mut val: u128 = 0;
    let mut i: usize = 0;
    while i < tok.len()
        invariant
            i <= tok@.len(),
            forall|j: int| 0 <= j < i ==> is_digit(#[trigger] tok@[j]),
            val == nat_of(tok@.take(i as int)),
            val <= usize::MAX,
        decreases tok@.len() - i,
    {
        let b = tok[i];
        if b < 48 || b > 57 {
            return None;
        }
        proof {
            assert(tok@.take(i + 1).drop_last() =~= tok@.take(i as int));
            assert(tok@.take(i + 1).last() == tok@[i as int]);
        }
        val = val * 10 + (b - 48) as u128;
        if val > usize::MAX as u128 {
            proof {
                lemma_nat_prefix_le(tok@, i + 1);
            }
            return None;
        }
        i = i + 1;
    }
    proof {
        assert(tok@.take(tok@.len() as int) =~= tok@);
    }
    Some(val as usize)
}

/// Parses a real-number token: an optional sign, digits with at most one
/// decimal point, at least one digit, and small enough for exact
/// evaluation. Returns the signed mantissa and the count of fractional
/// digits — the token's value is `mantissa / 10^scale` — or nothing when
/// the token is malformed or too large.
pub fn parse_dec_token(tok: &[u8]) -> (r: Option<(i64, u32)>)
    ensures
        r is Some <==> dec_token_fits(tok@),
        r matches Some((m, sc)) ==> m == dec_signed(tok@) && sc == dec_scale(tok@),
{
    let mut neg = false;
    let mut start: usize = 0;
    if tok.len() > 0 && (tok[0] == 43 || tok[0] == 45) {
        neg = tok[0] == 45;
        start = 1;
    }
    proof {
        if start == 0 {
            assert(dec_body(tok@) =~= tok@.skip(0));
        }
    }
    if tok.len() <= start {
        return None;
    }
    let ghost body = dec_body(tok@);
    proof {
        assert(body =~= tok@.skip(start as int));
    }
    let mut val: u128 = 0;
    let mut dots: usize = 0;
    let mut sc: usize = 0;
    let mut ndig: usize = 0;
    let mut i: usize = start;
    while i < tok.len()
        invariant
            start <= i <= tok@.len(),
            start <= 1,
            body == dec_body(tok@),
            body == tok@.skip(start as int),
            forall|j: int|
                start <= j < i ==> is_digit(#[trigger] tok@[j]) || tok@[j] == 46,
            val == nat_of(digits_of(body.take(i - start))),
            val <= MANT_LIMIT,
            dots == dots_of(body.take(i - start)),
            sc == scale_of(body.take(i - start)),
            ndig == digits_of(body.take(i - start)).len(),
            dots <= i,
            sc <= i,
            ndig <= i,
        decreases tok@.len() - i,
    {
        let b = tok[i];
        let ghost p = body.take(i - start);
        let ghost p2 = body.take(i + 1 - start);
        proof {
            assert(p2.drop_last() =~= p);
            assert(p2.last() == tok@[i as int]);
        }
        if b >= 48 && b <= 57 {
            proof {
                assert(digits_of(p2) == digits_of(p).push(b));
                assert(digits_of(p2).drop_last() =~= digits_of(p));
            }
            val = val * 10 + (b - 48) as u128;
            if val > MANT_LIMIT {
                proof {
                    lemma_mant_prefix_le(body, i + 1 - start);
                }
                return None;
            }
            if dots > 0 {
                sc = sc + 1;
            } else {
                sc = 0;
            }
            ndig = ndig + 1;
        } else if b == 46 {
            dots = dots + 1;
            sc = 0;
        } else {
            proof {
                assert(body[i - start] == tok@[i as int]);
            }
            return None;
        }
        i = i + 1;
    }
    proof {
        assert(body.take(tok@.len() - start) =~= body);
    }
    if ndig == 0 || dots > 1 || sc > SCALE_LIMIT as usize {
        return None;
    }
    let m = if neg {
        -(val as i64)
    } else {
        val as i64
    };
    Some((m, sc as u32))
}

pub open spec fn nmax(a: nat, b: nat) -> nat {
    if a >= b {
        a
    } else {
        b
    }
}

/// The coordinate a token stands for, rescaled to the mesh scale `c`: an
/// integer count of `10^-c` units.
pub open spec fn unit_val(tok: Seq<u8>, c: nat) -> int {
    dec_signed(tok) * pow10((c - dec_scale(tok)) as nat)
}

/// A coordinate line: at least three tokens, the first three of them
/// real-number tokens in range for exact evaluation. Any further tokens
/// on the line are ignored.
pub open spec fn vertex_line_ok(l: Seq<u8>) -> bool {
    let ts = spec_tokens(l);
    &&& ts.len() >= 3
    &&& dec_token_fits(ts[0])
    &&& dec_token_fits(ts[1])
    &&& dec_token_fits(ts[2])
}

/// The finest scale among a coordinate line's three coordinates.
pub open spec fn line_scale(l: Seq<u8>) -> nat {
    let ts = spec_tokens(l);
    nmax(nmax(dec_scale(ts[0]), dec_scale(ts[1])), dec_scale(ts[2]))
}

/// The finest scale among the first `p` coordinate lines, which stand at
/// line indices 1 through `p`.
pub open spec fn vertex_scale_max(ls: Seq<Seq<u8>>, p: int) -> nat
    decreases p,
{
    if p <= 0 {
        0
    } else {
        nmax(vertex_scale_max(ls, p - 1), line_scale(ls[p]))
    }
}

/// A coordinate line's vertex, in units of the mesh scale `c`.
pub open spec fn vert_units(l: Seq<u8>, c: nat) -> V3 {
    let ts = spec_tokens(l);
    V3 { x: unit_val(ts[0], c), y: unit_val(ts[1], c), z: unit_val(ts[2], c) }
}

/// The line's coordinates, rescaled to the mesh scale, are in range for
/// exact evaluation.
pub open spec fn vertex_fits(l: Seq<u8>, c: nat) -> bool {
    let u = vert_units(l, c);
    &&& -COORD_LIMIT <= u.x <= COORD_LIMIT
    &&& -COORD_LIMIT <= u.y <= COORD_LIMIT
    &&& -COORD_LIMIT <= u.z <= COORD_LIMIT
}

/// A triangle line: exactly three integer tokens.
pub open spec fn tri_line_ok(l: Seq<u8>) -> bool {
    let ts = spec_tokens(l);
    &&& ts.len() == 3
    &&& nat_token_fits(ts[0])
    &&& nat_token_fits(ts[1])
    &&& nat_token_fits(ts[2])
}

pub open spec fn tri_of_line(l: Seq<u8>) -> Triangle {
    let ts = spec_tokens(l);
    Triangle {
        a: nat_of(ts[0]) as usize,
        b: nat_of(ts[1]) as usize,
        c: nat_of(ts[2]) as usize,
    }
}

/// A well-formed input resource: a point count line, that many coordinate
/// lines, a triangle count line, and every remaining line an index
/// triple, all tokens valid and in range for exact evaluation.
pub open spec fn input_ok(s: Seq<u8>) -> bool {
    let ls = spec_lines(s);
    &&& ls.len() >= 1
    &&& nat_token_fits(ls[0])
    &&& nat_of(ls[0]) <= COUNT_LIMIT
    &&& ls.len() >= nat_of(ls[0]) + 2
    &&& (forall|i: int| 0 <= i < nat_of(ls[0]) ==> vertex_line_ok(#[trigger] ls[1 + i]))
    &&& (forall|i: int|
        0 <= i < nat_of(ls[0]) ==> vertex_fits(
            #[trigger] ls[1 + i],
            vertex_scale_max(ls, nat_of(ls[0]) as int),
        ))
    &&& nat_token_fits(ls[nat_of(ls[0]) as int + 1])
    &&& (forall|i: int|
        nat_of(ls[0]) + 2 <= i < ls.len() ==> tri_line_ok(#[trigger] ls[i]))
}

proof fn lemma_view_index(vs: Seq<Vec<u8>>, k: int)
    requires
        0 <= k < vs.len(),
    ensures
        view_seq(vs).len() == vs.len(),
        view_seq(vs)[k] == vs[k]@,
{
}

pub proof fn lemma_pow10_mono(a: nat, b: nat)
    requires
        a <= b,
    ensures
        pow10(a) <= pow10(b),
        pow10(a) >= 1,
    decreases b,
{
    if a > 0 && a == b {
        lemma_pow10_mono((a - 1) as nat, (a - 1) as nat);
        assert(pow10(a) == 10 * pow10((a - 1) as nat));
    }
    if a < b {
        lemma_pow10_mono(a, (b - 1) as nat);
        assert(pow10(b) == 10 * pow10((b - 1) as nat));
    }
}

proof fn lemma_pow10_at_limit()
    ensures
        pow10(SCALE_LIMIT as nat) == MANT_LIMIT,
{
    reveal_with_fuel(pow10, 20);
}

/// Computes an exact power of ten.
fn pow10_i128(e: u32) -> (r: i128)
    requires
        e <= SCALE_LIMIT,
    ensures
        r == pow10(e as nat),
        1 <= r <= MANT_LIMIT,
{
    let mut r: i128 = 1;
    let mut k: u32 = 0;
    while k < e
        invariant
            k <= e,
            e <= SCALE_LIMIT,
            1 <= r,
            r == pow10(k as nat),
        decreases e - k,
    {
        proof {
            lemma_pow10_mono(k as nat, SCALE_LIMIT as nat);
            lemma_pow10_at_limit();
        }
        r = r * 10;
        k = k + 1;
    }
    proof {
        lemma_pow10_mono(e as nat, SCALE_LIMIT as nat);
        lemma_pow10_at_limit();
    }
    r
}

/// One coordinate line's parse, before rescaling: the three signed
/// mantissas with their own scales.
#[derive(Clone, Copy)]
struct RawVertex {
    xm: i64,
    xs: u32,
    ym: i64,
    ys: u32,
    zm: i64,
    zs: u32,
}

spec fn raw_matches(rv: RawVertex, l: Seq<u8>) -> bool {
    let ts = spec_tokens(l);
    &&& rv.xm == dec_signed(ts[0]) && rv.xs == dec_scale(ts[0])
    &&& rv.ym == dec_signed(ts[1]) && rv.ys == dec_scale(ts[1])
    &&& rv.zm == dec_signed(ts[2]) && rv.zs == dec_scale(ts[2])
}

/// Parses the input resource into a mesh. The whole load either succeeds
/// or yields a parse error: a malformed count or coordinate token, fewer
/// lines than the declared point count requires, a missing triangle count
/// line, a triangle line without exactly three integer tokens, or a
/// number too large for exact evaluation all reject the input. The
/// declared triangle count is recorded as read; every line after it is
/// consumed as a triangle whether or not their number matches it.
pub fn parse_input(input: &[u8]) -> (r: Result<Mesh, MeshError>)
    ensures
        r is Ok <==> input_ok(input@),
        r is Err ==> r == Result::<Mesh, MeshError>::Err(MeshError::ParseError),
        r matches Ok(m) ==> ({
            let ls = spec_lines(input@);
            let p = nat_of(ls[0]);
            &&& m.n_points == p
            &&& m.vertices@.len() == p
            &&& m.scale == vertex_scale_max(ls, p as int)
            &&& (forall|i: int|
                0 <= i < p ==> (#[trigger] m.vertices@[i])@ == vert_units(
                    ls[1 + i],
                    m.scale as nat,
                ))
            &&& m.n_triangles == nat_of(ls[p as int + 1])
            &&& m.triangles@.len() == ls.len() - p - 2
            &&& (forall|i: int|
                0 <= i < ls.len() - p - 2 ==> #[trigger] m.triangles@[i] == tri_of_line(
                    ls[p + 2 + i],
                ))
            &&& m.bounded()
        }),
{
    let ghost ls = spec_lines(input@);
    let lines = split_lines(input);
    proof {
        assert(forall|k: int|
            0 <= k < lines@.len() ==> #[trigger] ls[k] == lines@[k]@) by {
            assert forall|k: int| 0 <= k < lines@.len() implies #[trigger] ls[k]
                == lines@[k]@ by {
                lemma_view_index(lines@, k);
            }
        }
        assert(ls.len() == lines@.len());
    }
    if lines.len() == 0 {
        return Err(MeshError::ParseError);
    }
    let n_points = match parse_nat_token(lines[0].as_slice()) {
        Some(v) => v,
        None => {
            return Err(MeshError::ParseError);
        },
    };
    if n_points > COUNT_LIMIT {
        return Err(MeshError::ParseError);
    }
    if lines.len() < n_points + 2 {
        return Err(MeshError::ParseError);
    }
    let mut raw: Vec<RawVertex> = Vec::new();
    let mut ms: u32 = 0;
    let mut i: usize = 0;
    while i < n_points
        invariant
            ls == spec_lines(input@),
            i <= n_points,
            n_points == nat_of(ls[0]),
            n_points <= COUNT_LIMIT,
            lines@.len() == ls.len(),
            lines@.len() >= n_points + 2,
            forall|k: int| 0 <= k < lines@.len() ==> #[trigger] ls[k] == lines@[k]@,
            raw@.len() == i,
            ms == vertex_scale_max(ls, i as int),
            ms <= SCALE_LIMIT,
            forall|j: int| 0 <= j < i ==> vertex_line_ok(#[trigger] ls[1 + j]),
            forall|j: int| 0 <= j < i ==> raw_matches(#[trigger] raw@[j], ls[1 + j]),
            forall|j: int|
                0 <= j < i ==> (#[trigger] raw@[j]).xs <= ms && raw@[j].ys <= ms
                    && raw@[j].zs <= ms,
        decreases n_points - i,
    {
        let toks = split_tokens(lines[1 + i].as_slice());
        let ghost lts = spec_tokens(ls[1 + i as int]);
        proof {
            assert(view_seq(toks@) == lts);
            assert(forall|k: int|
                0 <= k < toks@.len() ==> #[trigger] lts[k] == toks@[k]@) by {
                assert forall|k: int| 0 <= k < toks@.len() implies #[trigger] lts[k]
                    == toks@[k]@ by {
                    lemma_view_index(toks@, k);
                }
            }
            assert(lts.len() == toks@.len());
        }
        if toks.len() < 3 {
            return Err(MeshError::ParseError);
        }
        let (xm, xs) = match parse_dec_token(toks[0].as_slice()) {
            Some(v) => v,
            None => {
                return Err(MeshError::ParseError);
            },
        };
        let (ym, ys) = match parse_dec_token(toks[1].as_slice()) {
            Some(v) => v,
            None => {
                return Err(MeshError::ParseError);
            },
        };
        let (zm, zs) = match parse_dec_token(toks[2].as_slice()) {
            Some(v) => v,
            None => {
                return Err(MeshError::ParseError);
            },
        };
        let mut lm: u32 = xs;
        if ys > lm {
            lm = ys;
        }
        if zs > lm {
            lm = zs;
        }
        proof {
            assert(lm == line_scale(ls[1 + i as int]));
            assert(vertex_scale_max(ls, i + 1) == nmax(
                vertex_scale_max(ls, i as int),
                line_scale(ls[1 + i as int]),
            ));
        }
        if lm > ms {
            ms = lm;
        }
        raw.push(RawVertex { xm, xs, ym, ys, zm, zs });
        i = i + 1;
    }
    let n_triangles = match parse_nat_token(lines[1 + n_points].as_slice()) {
        Some(v) => v,
        None => {
            return Err(MeshError::ParseError);
        },
    };
    let mut triangles: Vec<Triangle> = Vec::new();
    let mut k: usize = n_points + 2;
    while k < lines.len()
        invariant
            ls == spec_lines(input@),
            n_points + 2 <= k <= lines@.len(),
            n_points == nat_of(ls[0]),
            lines@.len() == ls.len(),
            forall|m: int| 0 <= m < lines@.len() ==> #[trigger] ls[m] == lines@[m]@,
            triangles@.len() == k - n_points - 2,
            forall|j: int|
                0 <= j < triangles@.len() ==> #[trigger] triangles@[j] == tri_of_line(
                    ls[n_points + 2 + j],
                ) && tri_line_ok(ls[n_points + 2 + j]),
        decreases lines@.len() - k,
    {
        let toks = split_tokens(lines[k].as_slice());
        let ghost lts = spec_tokens(ls[k as int]);
        proof {
            assert(view_seq(toks@) == lts);
            assert(forall|m: int|
                0 <= m < toks@.len() ==> #[trigger] lts[m] == toks@[m]@) by {
                assert forall|m: int| 0 <= m < toks@.len() implies #[trigger] lts[m]
                    == toks@[m]@ by {
                    lemma_view_index(toks@, m);
                }
            }
            assert(lts.len() == toks@.len());
        }
        if toks.len() != 3 {
            return Err(MeshError::ParseError);
        }
        let a = match parse_nat_token(toks[0].as_slice()) {
            Some(v) => v,
            None => {
                return Err(MeshError::ParseError);
            },
        };
        let b = match parse_nat_token(toks[1].as_slice()) {
            Some(v) => v,
            None => {
                return Err(MeshError::ParseError);
            },
        };
        let c = match parse_nat_token(toks[2].as_slice()) {
            Some(v) => v,
            None => {
                return Err(MeshError::ParseError);
            },
        };
        proof {
            assert(tri_line_ok(ls[k as int]));
            assert(a == nat_of(lts[0]) && b == nat_of(lts[1]) && c == nat_of(lts[2]));
            assert(Triangle { a, b, c } == tri_of_line(ls[k as int]));
        }
        let ghost old_t = triangles@;
        triangles.push(Triangle { a, b, c });
        proof {
            assert forall|j: int| 0 <= j < triangles@.len() implies #[trigger] triangles@[j]
                == tri_of_line(ls[n_points + 2 + j]) && tri_line_ok(ls[n_points + 2 + j]) by {
                if j < old_t.len() {
                    assert(triangles@[j] == old_t[j]);
                } else {
                    assert(triangles@[j] == Triangle { a, b, c });
                    assert(n_points + 2 + j == k as int);
                }
            }
        }
        k = k + 1;
    }
    let mut vertices: Vec<Vec3> = Vec::new();
    let mut v: usize = 0;
    while v < n_points
        invariant
            ls == spec_lines(input@),
            v <= n_points,
            n_points == nat_of(ls[0]),
            n_points <= COUNT_LIMIT,
            raw@.len() == n_points,
            ms == vertex_scale_max(ls, n_points as int),
            ms <= SCALE_LIMIT,
            forall|j: int| 0 <= j < n_points ==> vertex_line_ok(#[trigger] ls[1 + j]),
            forall|j: int| 0 <= j < n_points ==> raw_matches(#[trigger] raw@[j], ls[1 + j]),
            forall|j: int|
                0 <= j < n_points ==> (#[trigger] raw@[j]).xs <= ms && raw@[j].ys <= ms
                    && raw@[j].zs <= ms,
            forall|j: int|
                0 <= j < n_points ==> -(MANT_LIMIT as int) <= (#[trigger] raw@[j]).xm
                    <= MANT_LIMIT && -(MANT_LIMIT as int) <= raw@[j].ym <= MANT_LIMIT && -(
                MANT_LIMIT as int) <= raw@[j].zm <= MANT_LIMIT,
            vertices@.len() == v,
            forall|j: int|
                0 <= j < v ==> (#[trigger] vertices@[j])@ == vert_units(ls[1 + j], ms as nat)
                    && crate::mesh::coord_ok(vertices@[j]),
        decreases n_points - v,
    {
        let rv = raw[v];
        let fx = pow10_i128(ms - rv.xs);
        let fy = pow10_i128(ms - rv.ys);
        let fz = pow10_i128(ms - rv.zs);
        let lim: i128 = MANT_LIMIT as i128;
        assert(-(lim * lim) <= rv.xm * fx <= lim * lim) by (nonlinear_arith)
            requires
                -lim <= rv.xm <= lim,
                1 <= fx <= lim,
        ;
        assert(-(lim * lim) <= rv.ym * fy <= lim * lim) by (nonlinear_arith)
            requires
                -lim <= rv.ym <= lim,
                1 <= fy <= lim,
        ;
        assert(-(lim * lim) <= rv.zm * fz <= lim * lim) by (nonlinear_arith)
            requires
                -lim <= rv.zm <= lim,
                1 <= fz <= lim,
        ;
        let ux = rv.xm as i128 * fx;
        let uy = rv.ym as i128 * fy;
        let uz = rv.zm as i128 * fz;
        let cl: i128 = COORD_LIMIT as i128;
        if ux > cl || ux < -cl || uy > cl || uy < -cl || uz > cl || uz < -cl {
            proof {
                assert(ux == unit_val(spec_tokens(ls[1 + v as int])[0], ms as nat));
                assert(uy == unit_val(spec_tokens(ls[1 + v as int])[1], ms as nat));
                assert(uz == unit_val(spec_tokens(ls[1 + v as int])[2], ms as nat));
                assert(!vertex_fits(ls[1 + v as int], vertex_scale_max(ls, nat_of(ls[0]) as int)));
            }
            return Err(MeshError::ParseError);
        }
        vertices.push(Vec3 { x: ux as i64, y: uy as i64, z: uz as i64 });
        v = v + 1;
    }
    proof {
        let p = nat_of(ls[0]);
        assert forall|q: int| p + 2 <= q < ls.len() implies tri_line_ok(#[trigger] ls[q]) by {
            assert(triangles@[q - p - 2] == tri_of_line(ls[q]));
        }
        assert forall|j: int| 0 <= j < p implies vertex_fits(
            #[trigger] ls[1 + j],
            vertex_scale_max(ls, p as int),
        ) by {
            assert((vertices@[j])@ == vert_units(ls[1 + j], ms as nat));
            assert(crate::mesh::coord_ok(vertices@[j]));
        }
        assert(input_ok(input@));
    }
    Ok(Mesh { n_points, scale: ms, vertices, n_triangles, triangles })
}

} // verus!
