//! Format stability: what the writer emits, the loader reads back.
//!
//! The central law: rendering a bounded mesh at a precision the exact
//! format can carry yields a well-formed resource whose reload reproduces
//! the point count, the declared triangle count and the triangle list.
//! Vertex coordinates come back rounded to the requested precision, as
//! the fixed-precision format prescribes.

use vstd::arithmetic::div_mod::{
    lemma_div_is_ordered_by_denominator, lemma_fundamental_div_mod,
    lemma_fundamental_div_mod_converse, lemma_mod_division_less_than_divisor,
};
use vstd::prelude::*;

use crate::mesh::{Mesh, Triangle, Vec3, COORD_LIMIT, SCALE_LIMIT};
use crate::parse::{
    all_digits, dec_body, dec_mant, dec_neg, dec_scale, dec_signed, digits_of,
    dots_of, input_ok, is_dec_token, is_digit, is_nl, is_ws, nat_of, nat_token_fits, pow10,
    scale_of,
    spec_lines, spec_tokens, tri_line_ok, tri_of_line, unit_val, vertex_fits, vertex_line_ok,
    vertex_scale_max, MANT_LIMIT,
};
use crate::render::{
    abs_of, eff_scale, rounded_mag, spec_coord, spec_frac_digits, spec_nat_digits, spec_render,
    spec_tri_line, spec_tri_lines, spec_vertex_line, spec_vertex_lines, zeros,
};

verus! {

proof fn lemma_pow10_pos(e: nat)
    ensures
        pow10(e) >= 1,
    decreases e,
{
    if e > 0 {
        lemma_pow10_pos((e - 1) as nat);
    }
}

proof fn lemma_pow10_add(a: nat, b: nat)
    ensures
        pow10(a + b) == pow10(a) * pow10(b),
    decreases b,
{
    if b == 0 {
        assert(pow10(a + 0) == pow10(a) * 1);
    } else {
        lemma_pow10_add(a, (b - 1) as nat);
        let pb = pow10((b - 1) as nat) as int;
        let pa = pow10(a) as int;
        assert(pow10(a + b) == 10 * (pa * pb));
        assert(10 * (pa * pb) == pa * (10 * pb)) by (nonlinear_arith);
    }
}

proof fn lemma_nat_digits_are_digits(n: nat)
    ensures
        all_digits(spec_nat_digits(n)),
        spec_nat_digits(n).len() >= 1,
    decreases n,
{
    if n < 10 {
        assert(is_digit(spec_nat_digits(n)[0]));
    } else {
        lemma_nat_digits_are_digits(n / 10);
        let s = spec_nat_digits(n / 10);
        assert(forall|i: int|
            0 <= i < s.push((48 + n % 10) as u8).len() ==> is_digit(
                #[trigger] s.push((48 + n % 10) as u8)[i],
            ));
    }
}

proof fn lemma_nat_digits_value(n: nat)
    ensures
        nat_of(spec_nat_digits(n)) == n,
    decreases n,
{
    if n < 10 {
        let s = spec_nat_digits(n);
        assert(s.drop_last() =~= Seq::<u8>::empty());
        assert(nat_of(s) == nat_of(Seq::<u8>::empty()) * 10 + ((48 + n) as u8 - 48) as nat);
    } else {
        lemma_nat_digits_value(n / 10);
        let s = spec_nat_digits(n / 10).push((48 + n % 10) as u8);
        assert(s.drop_last() =~= spec_nat_digits(n / 10));
        assert(nat_of(s) == (n / 10) * 10 + n % 10);
    }
}

proof fn lemma_frac_digits_are_digits(m: nat, w: nat)
    ensures
        all_digits(spec_frac_digits(m, w)),
        spec_frac_digits(m, w).len() == w,
    decreases w,
{
    if w > 0 {
        lemma_frac_digits_are_digits(m / 10, (w - 1) as nat);
        let s = spec_frac_digits(m / 10, (w - 1) as nat);
        assert(forall|i: int|
            0 <= i < s.push((48 + m % 10) as u8).len() ==> is_digit(
                #[trigger] s.push((48 + m % 10) as u8)[i],
            ));
    }
}

proof fn lemma_frac_digits_value(m: nat, w: nat)
    ensures
        nat_of(spec_frac_digits(m, w)) == m % pow10(w),
    decreases w,
{
    if w == 0 {
        assert(pow10(0) == 1);
        assert(m % 1 == 0) by {
            lemma_fundamental_div_mod_converse(m as int, 1, m as int, 0);
        }
    } else {
        lemma_frac_digits_value(m / 10, (w - 1) as nat);
        let s = spec_frac_digits(m / 10, (w - 1) as nat).push((48 + m % 10) as u8);
        assert(s.drop_last() =~= spec_frac_digits(m / 10, (w - 1) as nat));
        let pw1 = pow10((w - 1) as nat) as int;
        let pw = pow10(w) as int;
        assert(pw == 10 * pw1);
        lemma_pow10_pos((w - 1) as nat);
        let q = (m / 10) as int / pw1;
        let r = (m / 10) as int % pw1;
        lemma_fundamental_div_mod((m / 10) as int, pw1);
        lemma_mod_division_less_than_divisor((m / 10) as int, pw1);
        assert(nat_of(s) == r * 10 + m % 10);
        assert(m == 10 * (m / 10) + m % 10);
        assert(10 * (q * pw1 + r) == q * (10 * pw1) + 10 * r) by (nonlinear_arith);
        assert(m as int == q * pw + (10 * r + (m % 10)));
        assert(0 <= 10 * r + (m % 10) < pw);
        lemma_fundamental_div_mod_converse(m as int, pw, q, 10 * r + (m % 10) as int);
        assert(m % pow10(w) == 10 * r + m % 10);
    }
}

proof fn lemma_zeros_props(w: nat)
    ensures
        all_digits(zeros(w)),
        zeros(w).len() == w,
        nat_of(zeros(w)) == 0,
    decreases w,
{
    if w > 0 {
        lemma_zeros_props((w - 1) as nat);
        let s = zeros((w - 1) as nat).push(48u8);
        assert(s.drop_last() =~= zeros((w - 1) as nat));
        assert(forall|i: int| 0 <= i < s.len() ==> is_digit(#[trigger] s[i]));
        assert(nat_of(s) == 0);
    }
}

proof fn lemma_nat_of_concat(x: Seq<u8>, y: Seq<u8>)
    ensures
        nat_of(x + y) == nat_of(x) * pow10(y.len()) + nat_of(y),
    decreases y.len(),
{
    if y.len() == 0 {
        assert(x + y =~= x);
        assert(nat_of(x) * 1 == nat_of(x));
    } else {
        lemma_nat_of_concat(x, y.drop_last());
        assert((x + y).drop_last() =~= x + y.drop_last());
        assert((x + y).last() == y.last());
        let a = nat_of(x) as int;
        let p1 = pow10((y.len() - 1) as nat) as int;
        assert(pow10(y.len()) == 10 * p1);
        assert((a * p1) * 10 == a * (10 * p1)) by (nonlinear_arith);
        assert(nat_of(x + y) == nat_of(x + y.drop_last()) * 10 + (y.last() - 48) as nat);
        assert(nat_of(y) == nat_of(y.drop_last()) * 10 + (y.last() - 48) as nat);
    }
}

proof fn lemma_digits_of_concat(x: Seq<u8>, y: Seq<u8>)
    ensures
        digits_of(x + y) == digits_of(x) + digits_of(y),
    decreases y.len(),
{
    if y.len() == 0 {
        assert(x + y =~= x);
        assert(digits_of(x) + digits_of(y) =~= digits_of(x));
    } else {
        lemma_digits_of_concat(x, y.drop_last());
        assert((x + y).drop_last() =~= x + y.drop_last());
        assert((x + y).last() == y.last());
        if is_digit(y.last()) {
            assert(digits_of(y) == digits_of(y.drop_last()).push(y.last()));
            assert(digits_of(x + y) =~= digits_of(x) + digits_of(y));
        } else {
            assert(digits_of(y) == digits_of(y.drop_last()));
            assert(digits_of(x + y) =~= digits_of(x) + digits_of(y));
        }
    }
}

proof fn lemma_dots_of_concat(x: Seq<u8>, y: Seq<u8>)
    ensures
        dots_of(x + y) == dots_of(x) + dots_of(y),
    decreases y.len(),
{
    if y.len() == 0 {
        assert(x + y =~= x);
    } else {
        lemma_dots_of_concat(x, y.drop_last());
        assert((x + y).drop_last() =~= x + y.drop_last());
        assert((x + y).last() == y.last());
    }
}

proof fn lemma_all_digits_facts(s: Seq<u8>)
    requires
        all_digits(s),
    ensures
        digits_of(s) == s,
        dots_of(s) == 0,
        scale_of(s) == 0,
    decreases s.len(),
{
    if s.len() > 0 {
        assert(forall|i: int| 0 <= i < s.drop_last().len() ==> #[trigger] s.drop_last()[i] == s[i]);
        lemma_all_digits_facts(s.drop_last());
        assert(is_digit(s.last()));
        assert(digits_of(s) =~= s);
    }
}

proof fn lemma_scale_of_after_dot(x: Seq<u8>, d: Seq<u8>)
    requires
        all_digits(d),
    ensures
        scale_of(x + seq![46u8] + d) == d.len(),
        dots_of(x + seq![46u8] + d) == dots_of(x) + 1,
    decreases d.len(),
{
    lemma_dots_of_concat(x, seq![46u8]);
    lemma_dots_of_concat(x + seq![46u8], d);
    assert(dots_of(seq![46u8]) == 1) by {
        assert(seq![46u8].drop_last() =~= Seq::<u8>::empty());
        assert(dots_of(Seq::<u8>::empty()) == 0);
        assert(seq![46u8].last() == 46u8);
    }
    assert(forall|i: int| 0 <= i < d.len() ==> is_digit(#[trigger] d[i]));
    lemma_all_digits_facts(d);
    if d.len() == 0 {
        assert(x + seq![46u8] + d =~= x + seq![46u8]);
        assert((x + seq![46u8]).last() == 46u8);
    } else {
        let s = x + seq![46u8] + d;
        assert(forall|i: int|
            0 <= i < d.drop_last().len() ==> #[trigger] d.drop_last()[i] == d[i]);
        lemma_scale_of_after_dot(x, d.drop_last());
        assert(s.drop_last() =~= x + seq![46u8] + d.drop_last());
        assert(s.last() == d.last());
        assert(is_digit(s.last()));
        assert(s.last() != 46u8);
        assert(dots_of(s.drop_last()) == dots_of(x) + 1 > 0);
        assert(scale_of(s) == scale_of(s.drop_last()) + 1);
    }
}

/// Every byte of a written coordinate is a digit, a point or a minus
/// sign: never a blank and never a newline.
proof fn lemma_coord_bytes(u: int, c: nat, p: nat)
    ensures
        forall|i: int|
            0 <= i < spec_coord(u, c, p).len() ==> (is_digit(#[trigger] spec_coord(u, c, p)[i])
                || spec_coord(u, c, p)[i] == 46 || spec_coord(u, c, p)[i] == 45),
        spec_coord(u, c, p).len() > 0,
{
    let a = rounded_mag(abs_of(u), c, p);
    let e = eff_scale(c, p);
    let nd = spec_nat_digits(a / pow10(e));
    let fd = spec_frac_digits(a % pow10(e), e);
    let z = zeros((p - e) as nat);
    lemma_nat_digits_are_digits(a / pow10(e));
    lemma_frac_digits_are_digits(a % pow10(e), e);
    lemma_zeros_props((p - e) as nat);
    let t = spec_coord(u, c, p);
    assert forall|i: int| 0 <= i < t.len() implies (is_digit(#[trigger] t[i]) || t[i] == 46
        || t[i] == 45) by {
        let off: int = if u < 0 {
            1
        } else {
            0
        };
        if i < off {
            assert(t[i] == 45);
        } else if i < off + nd.len() {
            assert(t[i] == nd[i - off]);
        } else if p != 0 {
            if i == off + nd.len() {
                assert(t[i] == 46);
            } else if i < off + nd.len() + 1 + fd.len() {
                assert(t[i] == fd[i - off - nd.len() - 1]);
            } else {
                assert(t[i] == z[i - off - nd.len() - 1 - fd.len()]);
            }
        }
    }
}

/// A written coordinate reads back as a valid real token: its sign is the
/// coordinate's, its fractional width is exactly the precision, and its
/// digits spell the rounded magnitude padded to that width.
proof fn lemma_coord_token(u: int, c: nat, p: nat)
    ensures
        ({
            let t = spec_coord(u, c, p);
            let a = rounded_mag(abs_of(u), c, p);
            let e = eff_scale(c, p);
            &&& is_dec_token(t)
            &&& dec_neg(t) == (u < 0)
            &&& dec_scale(t) == p
            &&& dec_mant(t) == a * pow10((p - e) as nat)
        }),
{
    let a = rounded_mag(abs_of(u), c, p);
    let e = eff_scale(c, p);
    let nd = spec_nat_digits(a / pow10(e));
    let fd = spec_frac_digits(a % pow10(e), e);
    let z = zeros((p - e) as nat);
    lemma_nat_digits_are_digits(a / pow10(e));
    lemma_nat_digits_value(a / pow10(e));
    lemma_frac_digits_are_digits(a % pow10(e), e);
    lemma_frac_digits_value(a % pow10(e), e);
    lemma_zeros_props((p - e) as nat);
    lemma_pow10_pos(e);
    let t = spec_coord(u, c, p);
    let frac: Seq<u8> = if p == 0 {
        Seq::empty()
    } else {
        seq![46u8] + fd + z
    };
    let body = dec_body(t);
    if u < 0 {
        assert(t =~= seq![45u8] + (nd + frac));
        assert(t[0] == 45);
        assert(body =~= nd + frac);
        assert(dec_neg(t));
    } else {
        assert(t =~= nd + frac);
        assert(is_digit(t[0]));
        assert(t[0] != 43 && t[0] != 45);
        assert(body =~= nd + frac);
        assert(!dec_neg(t));
    }
    let mag = (a % pow10(e)) as nat;
    assert(mag < pow10(e)) by {
        lemma_mod_division_less_than_divisor(a as int, pow10(e) as int);
    }
    assert(nat_of(fd) == mag) by {
        vstd::arithmetic::div_mod::lemma_small_mod(mag, pow10(e));
    }
    if p == 0 {
        assert(body =~= nd);
        lemma_all_digits_facts(nd);
        assert(e == 0);
        assert(pow10(0) == 1);
        assert(a / 1 == a);
        assert(dec_mant(t) == a);
        assert(a * pow10((p - e) as nat) == a) by {
            assert(pow10(0) == 1);
            assert(a * 1nat == a) by (nonlinear_arith);
        }
        assert(dec_scale(t) == 0);
        assert(is_dec_token(t));
    } else {
        let dd = fd + z;
        assert(all_digits(dd)) by {
            assert(forall|i: int|
                0 <= i < dd.len() ==> (i < fd.len() && #[trigger] dd[i] == fd[i]) || (fd.len() <= i
                    && dd[i] == z[i - fd.len()]));
        }
        assert(dd.len() == p);
        assert(body =~= nd + seq![46u8] + dd);
        lemma_all_digits_facts(nd);
        lemma_all_digits_facts(dd);
        lemma_scale_of_after_dot(nd, dd);
        assert(dec_scale(t) == p);
        assert(dots_of(body) == 1);
        // the digits of the body: the integer digits then the padded
        // fractional digits
        lemma_digits_of_concat(nd + seq![46u8], dd);
        lemma_digits_of_concat(nd, seq![46u8]);
        assert(digits_of(seq![46u8]) =~= Seq::<u8>::empty()) by {
            assert(seq![46u8].drop_last() =~= Seq::<u8>::empty());
            assert(digits_of(Seq::<u8>::empty()) =~= Seq::<u8>::empty());
        }
        assert(digits_of(body) =~= nd + dd);
        // the mantissa value
        lemma_nat_of_concat(nd, dd);
        lemma_nat_of_concat(fd, z);
        assert(nat_of(z) == 0);
        assert(nat_of(dd) == mag * pow10((p - e) as nat));
        lemma_pow10_add(e, (p - e) as nat);
        let q = (a / pow10(e)) as int;
        let pe = pow10(e) as int;
        let pz = pow10((p - e) as nat) as int;
        lemma_fundamental_div_mod(a as int, pe);
        assert(nat_of(digits_of(body)) == q * (pe * pz) + mag * pz);
        assert(q * (pe * pz) + mag * pz == (pe * q + mag) * pz) by (nonlinear_arith);
        assert(dec_mant(t) == a * pow10((p - e) as nat));
        // a valid token: every body byte a digit or the point
        assert forall|i: int| 0 <= i < body.len() implies (is_digit(#[trigger] body[i])
            || body[i] == 46) by {
            if i < nd.len() {
                assert(body[i] == nd[i]);
            } else if i == nd.len() {
                assert(body[i] == 46);
            } else {
                assert(body[i] == dd[i - nd.len() - 1]);
            }
        }
        assert(digits_of(body).len() > 0);
        assert(is_dec_token(t));
    }
}

/// One token and a blank: the head token splits off.
proof fn lemma_tokens_sep(x: Seq<u8>, rest: Seq<u8>)
    requires
        x.len() > 0,
        forall|i: int| 0 <= i < x.len() ==> !is_ws(#[trigger] x[i]),
    ensures
        spec_tokens(x + seq![32u8] + rest) == seq![x] + spec_tokens(rest),
{
    let s = x + seq![32u8] + rest;
    assert(forall|j: int| 0 <= j < x.len() ==> #[trigger] s[j] == x[j]);
    assert(s[x.len() as int] == 32);
    crate::parse::lemma_tokens_word(s, x.len() as int);
    assert(s.take(x.len() as int) =~= x);
    assert(s.skip(x.len() as int) =~= seq![32u8] + rest);
    assert((seq![32u8] + rest)[0] == 32);
    assert((seq![32u8] + rest).skip(1) =~= rest);
    assert(spec_tokens(s) =~= seq![x] + spec_tokens(rest));
}

/// A lone trailing token.
proof fn lemma_tokens_single(x: Seq<u8>)
    requires
        x.len() > 0,
        forall|i: int| 0 <= i < x.len() ==> !is_ws(#[trigger] x[i]),
    ensures
        spec_tokens(x) == seq![x],
{
    crate::parse::lemma_tokens_word(x, x.len() as int);
    assert(x.take(x.len() as int) =~= x);
    assert(x.skip(x.len() as int) =~= Seq::<u8>::empty());
    assert(spec_tokens(Seq::<u8>::empty()) =~= Seq::<Seq<u8>>::empty());
    assert(spec_tokens(x) =~= seq![x]);
}

/// Three blank-free tokens separated by single blanks.
proof fn lemma_tokens_triple(x: Seq<u8>, y: Seq<u8>, z: Seq<u8>)
    requires
        x.len() > 0 && y.len() > 0 && z.len() > 0,
        forall|i: int| 0 <= i < x.len() ==> !is_ws(#[trigger] x[i]),
        forall|i: int| 0 <= i < y.len() ==> !is_ws(#[trigger] y[i]),
        forall|i: int| 0 <= i < z.len() ==> !is_ws(#[trigger] z[i]),
    ensures
        spec_tokens(x + seq![32u8] + y + seq![32u8] + z) == seq![x, y, z],
{
    let tail = y + seq![32u8] + z;
    assert(x + seq![32u8] + y + seq![32u8] + z =~= x + seq![32u8] + tail);
    lemma_tokens_sep(x, tail);
    lemma_tokens_sep(y, z);
    lemma_tokens_single(z);
    assert(seq![y] + (seq![z] + Seq::<Seq<u8>>::empty()) =~= seq![y, z]);
    assert(spec_tokens(x + seq![32u8] + y + seq![32u8] + z) =~= seq![x, y, z]);
}

/// Every byte of a written triangle line is a digit or a blank.
proof fn lemma_tri_line_bytes(t: Triangle)
    ensures
        forall|i: int|
            0 <= i < spec_tri_line(t).len() ==> (is_digit(#[trigger] spec_tri_line(t)[i])
                || spec_tri_line(t)[i] == 32),
{
    let na = spec_nat_digits(t.a as nat);
    let nb = spec_nat_digits(t.b as nat);
    let nc = spec_nat_digits(t.c as nat);
    lemma_nat_digits_are_digits(t.a as nat);
    lemma_nat_digits_are_digits(t.b as nat);
    lemma_nat_digits_are_digits(t.c as nat);
    let l = spec_tri_line(t);
    assert forall|i: int| 0 <= i < l.len() implies (is_digit(#[trigger] l[i]) || l[i] == 32) by {
        if i < na.len() {
            assert(l[i] == na[i]);
        } else if i == na.len() {
            assert(l[i] == 32);
        } else if i < na.len() + 1 + nb.len() {
            assert(l[i] == nb[i - na.len() - 1]);
        } else if i == na.len() + 1 + nb.len() {
            assert(l[i] == 32);
        } else {
            assert(l[i] == nc[i - na.len() - nb.len() - 2]);
        }
    }
}

/// Every byte of a written coordinate line is a digit, a point, a minus
/// sign or a blank.
proof fn lemma_vertex_line_bytes(v: Vec3, c: nat, p: nat)
    ensures
        forall|i: int|
            0 <= i < spec_vertex_line(v, c, p).len() ==> (is_digit(
                #[trigger] spec_vertex_line(v, c, p)[i],
            ) || spec_vertex_line(v, c, p)[i] == 46 || spec_vertex_line(v, c, p)[i] == 45
                || spec_vertex_line(v, c, p)[i] == 32),
{
    let cx = spec_coord(v.x as int, c, p);
    let cy = spec_coord(v.y as int, c, p);
    let cz = spec_coord(v.z as int, c, p);
    lemma_coord_bytes(v.x as int, c, p);
    lemma_coord_bytes(v.y as int, c, p);
    lemma_coord_bytes(v.z as int, c, p);
    let l = spec_vertex_line(v, c, p);
    assert forall|i: int| 0 <= i < l.len() implies (is_digit(#[trigger] l[i]) || l[i] == 46
        || l[i] == 45 || l[i] == 32) by {
        if i < cx.len() {
            assert(l[i] == cx[i]);
        } else if i == cx.len() {
            assert(l[i] == 32);
        } else if i < cx.len() + 1 + cy.len() {
            assert(l[i] == cy[i - cx.len() - 1]);
        } else if i == cx.len() + 1 + cy.len() {
            assert(l[i] == 32);
        } else {
            assert(l[i] == cz[i - cx.len() - cy.len() - 2]);
        }
    }
}

/// A newline-free chunk followed by a newline is the first line of what
/// it opens.
proof fn lemma_lines_prefix(a: Seq<u8>, rest: Seq<u8>)
    requires
        forall|i: int| 0 <= i < a.len() ==> !is_nl(#[trigger] a[i]),
    ensures
        spec_lines(a + seq![10u8] + rest) == seq![a] + spec_lines(rest),
{
    let s = a + seq![10u8] + rest;
    assert(forall|j: int| 0 <= j < a.len() ==> #[trigger] s[j] == a[j]);
    assert(s[a.len() as int] == 10);
    crate::parse::lemma_lines_split(s, a.len() as int);
    assert(s.take(a.len() as int) =~= a);
    assert(s.skip(a.len() as int + 1) =~= rest);
    assert(spec_lines(s) =~= seq![a] + spec_lines(rest));
}

/// The written triangle section splits into one line per triangle.
proof fn lemma_lines_of_tri_lines(ts: Seq<Triangle>, k: int, rest: Seq<u8>)
    requires
        0 <= k <= ts.len(),
    ensures
        spec_lines(spec_tri_lines(ts, k) + rest) == Seq::new(
            k as nat,
            |i: int| spec_tri_line(ts[i]),
        ) + spec_lines(rest),
    decreases k,
{
    if k == 0 {
        assert(spec_tri_lines(ts, 0) + rest =~= rest);
        assert(Seq::new(0, |i: int| spec_tri_line(ts[i])) + spec_lines(rest) =~= spec_lines(
            rest,
        ));
    } else {
        let line = spec_tri_line(ts[k - 1]);
        assert(spec_tri_lines(ts, k) + rest =~= spec_tri_lines(ts, k - 1) + (line + seq![10u8]
            + rest));
        lemma_lines_of_tri_lines(ts, k - 1, line + seq![10u8] + rest);
        lemma_tri_line_bytes(ts[k - 1]);
        assert(forall|i: int| 0 <= i < line.len() ==> !is_nl(#[trigger] line[i]));
        lemma_lines_prefix(line, rest);
        assert(Seq::new((k - 1) as nat, |i: int| spec_tri_line(ts[i])) + (seq![line]
            + spec_lines(rest)) =~= Seq::new(k as nat, |i: int| spec_tri_line(ts[i]))
            + spec_lines(rest));
    }
}

/// The written vertex section splits into one line per vertex.
proof fn lemma_lines_of_vertex_lines(vs: Seq<Vec3>, c: nat, p: nat, k: int, rest: Seq<u8>)
    requires
        0 <= k <= vs.len(),
    ensures
        spec_lines(spec_vertex_lines(vs, c, p, k) + rest) == Seq::new(
            k as nat,
            |i: int| spec_vertex_line(vs[i], c, p),
        ) + spec_lines(rest),
    decreases k,
{
    if k == 0 {
        assert(spec_vertex_lines(vs, c, p, 0) + rest =~= rest);
        assert(Seq::new(0, |i: int| spec_vertex_line(vs[i], c, p)) + spec_lines(rest)
            =~= spec_lines(rest));
    } else {
        let line = spec_vertex_line(vs[k - 1], c, p);
        assert(spec_vertex_lines(vs, c, p, k) + rest =~= spec_vertex_lines(vs, c, p, k - 1) + (
        line + seq![10u8] + rest));
        lemma_lines_of_vertex_lines(vs, c, p, k - 1, line + seq![10u8] + rest);
        lemma_vertex_line_bytes(vs[k - 1], c, p);
        assert(forall|i: int| 0 <= i < line.len() ==> !is_nl(#[trigger] line[i]));
        lemma_lines_prefix(line, rest);
        assert(Seq::new((k - 1) as nat, |i: int| spec_vertex_line(vs[i], c, p)) + (seq![line]
            + spec_lines(rest)) =~= Seq::new(k as nat, |i: int| spec_vertex_line(vs[i], c, p))
            + spec_lines(rest));
    }
}

/// A written coordinate line reads back as its three tokens, and its
/// finest fractional width is exactly the precision.
proof fn lemma_vertex_line_tokens(v: Vec3, c: nat, p: nat)
    ensures
        spec_tokens(spec_vertex_line(v, c, p)) == seq![
            spec_coord(v.x as int, c, p),
            spec_coord(v.y as int, c, p),
            spec_coord(v.z as int, c, p),
        ],
        crate::parse::line_scale(spec_vertex_line(v, c, p)) == p,
{
    let cx = spec_coord(v.x as int, c, p);
    let cy = spec_coord(v.y as int, c, p);
    let cz = spec_coord(v.z as int, c, p);
    lemma_coord_bytes(v.x as int, c, p);
    lemma_coord_bytes(v.y as int, c, p);
    lemma_coord_bytes(v.z as int, c, p);
    assert(forall|i: int| 0 <= i < cx.len() ==> !is_ws(#[trigger] cx[i]));
    assert(forall|i: int| 0 <= i < cy.len() ==> !is_ws(#[trigger] cy[i]));
    assert(forall|i: int| 0 <= i < cz.len() ==> !is_ws(#[trigger] cz[i]));
    lemma_tokens_triple(cx, cy, cz);
    lemma_coord_token(v.x as int, c, p);
    lemma_coord_token(v.y as int, c, p);
    lemma_coord_token(v.z as int, c, p);
}

/// A written triangle line reads back as the triangle it was written
/// from.
proof fn lemma_tri_line_tokens(t: Triangle)
    ensures
        tri_line_ok(spec_tri_line(t)),
        tri_of_line(spec_tri_line(t)) == t,
{
    let na = spec_nat_digits(t.a as nat);
    let nb = spec_nat_digits(t.b as nat);
    let nc = spec_nat_digits(t.c as nat);
    lemma_nat_digits_are_digits(t.a as nat);
    lemma_nat_digits_are_digits(t.b as nat);
    lemma_nat_digits_are_digits(t.c as nat);
    lemma_nat_digits_value(t.a as nat);
    lemma_nat_digits_value(t.b as nat);
    lemma_nat_digits_value(t.c as nat);
    assert(forall|i: int| 0 <= i < na.len() ==> !is_ws(#[trigger] na[i]));
    assert(forall|i: int| 0 <= i < nb.len() ==> !is_ws(#[trigger] nb[i]));
    assert(forall|i: int| 0 <= i < nc.len() ==> !is_ws(#[trigger] nc[i]));
    lemma_tokens_triple(na, nb, nc);
    assert(tri_of_line(spec_tri_line(t)) == t);
}

/// A constant per-line scale makes the mesh scale that constant.
proof fn lemma_vsm_const(ls: Seq<Seq<u8>>, k: int, p: nat)
    requires
        0 <= k,
        forall|j: int| 1 <= j <= k ==> crate::parse::line_scale(#[trigger] ls[j]) == p,
    ensures
        vertex_scale_max(ls, k) == if k == 0 {
            0nat
        } else {
            p
        },
    decreases k,
{
    if k > 0 {
        lemma_vsm_const(ls, k - 1, p);
    }
}

/// The rounded magnitudes of a vertex, padded to the requested precision,
/// stay within the exact coordinate range.
pub open spec fn coord_refits(v: Vec3, c: nat, p: nat) -> bool {
    &&& rounded_mag(abs_of(v.x as int), c, p) * pow10((p - eff_scale(c, p)) as nat) <= COORD_LIMIT
    &&& rounded_mag(abs_of(v.y as int), c, p) * pow10((p - eff_scale(c, p)) as nat) <= COORD_LIMIT
    &&& rounded_mag(abs_of(v.z as int), c, p) * pow10((p - eff_scale(c, p)) as nat) <= COORD_LIMIT
}

/// A precision no finer than the stored scale never pushes a bounded
/// vertex out of the exact range: rounding only shrinks the magnitude.
pub proof fn lemma_refits_when_not_finer(v: Vec3, c: nat, p: nat)
    requires
        crate::mesh::coord_ok(v),
        p <= c,
    ensures
        coord_refits(v, c, p),
{
    let e = eff_scale(c, p);
    assert(e == p);
    lemma_refits_coord(v.x as int, c, p);
    lemma_refits_coord(v.y as int, c, p);
    lemma_refits_coord(v.z as int, c, p);
}

proof fn lemma_refits_coord(u: int, c: nat, p: nat)
    requires
        -(COORD_LIMIT as int) <= u <= COORD_LIMIT as int,
        p <= c,
    ensures
        rounded_mag(abs_of(u), c, p) * pow10((p - eff_scale(c, p)) as nat) <= COORD_LIMIT,
{
    let a = abs_of(u);
    let r = rounded_mag(a, c, p);
    assert(r <= COORD_LIMIT) by {
        if p < c {
            let d = pow10((c - p) as nat);
            assert(d >= 10) by {
                crate::parse::lemma_pow10_mono(1, (c - p) as nat);
                assert(pow10(1) == 10);
            }
            lemma_div_is_ordered_by_denominator(a as int, 10, d as int);
            assert(a as int / 10 <= 200_000_000);
        }
    }
    assert(pow10((p - eff_scale(c, p)) as nat) == 1);
    assert(r * 1nat == r) by (nonlinear_arith);
}

/// Round-trip format stability: rendering a bounded mesh at a precision
/// the exact format can carry yields a well-formed resource, and its
/// reload reproduces the point count, the declared triangle count and the
/// written triangle list. Vertex coordinates come back rounded to the
/// requested precision; a precision beyond the largest fractional width
/// the format carries, or one whose zero-padding would push a coordinate
/// out of the exact range, is excluded.
pub proof fn lemma_round_trip(m: Mesh, p: nat)
    requires
        m.bounded(),
        m.n_triangles <= m.triangles@.len(),
        p <= SCALE_LIMIT,
        forall|i: int|
            0 <= i < m.vertices@.len() ==> coord_refits(
                #[trigger] m.vertices@[i],
                m.scale as nat,
                p,
            ),
    ensures
        input_ok(spec_render(m, p)),
        spec_lines(spec_render(m, p)).len() == 2 + m.n_points + m.n_triangles,
        nat_of(spec_lines(spec_render(m, p))[0]) == m.n_points,
        nat_of(spec_lines(spec_render(m, p))[m.n_points as int + 1]) == m.n_triangles,
        forall|i: int|
            0 <= i < m.n_triangles ==> tri_of_line(
                #[trigger] spec_lines(spec_render(m, p))[m.n_points + 2 + i],
            ) == m.triangles@[i],
{
    let c = m.scale as nat;
    let vs = m.vertices@;
    let ts = m.triangles@;
    let pn = m.n_points as int;
    let tn = m.n_triangles as int;
    let cnt = spec_nat_digits(m.n_points as nat);
    let tcnt = spec_nat_digits(m.n_triangles as nat);
    let vls = spec_vertex_lines(vs, c, p, pn);
    let tls = spec_tri_lines(ts, tn);
    let out = spec_render(m, p);
    lemma_nat_digits_are_digits(m.n_points as nat);
    lemma_nat_digits_value(m.n_points as nat);
    lemma_nat_digits_are_digits(m.n_triangles as nat);
    lemma_nat_digits_value(m.n_triangles as nat);
    // the line structure of the output
    let tail = tcnt + seq![10u8] + tls;
    assert(out =~= cnt + seq![10u8] + (vls + tail));
    assert(forall|i: int| 0 <= i < cnt.len() ==> !is_nl(#[trigger] cnt[i]));
    lemma_lines_prefix(cnt, vls + tail);
    lemma_lines_of_vertex_lines(vs, c, p, pn, tail);
    assert(forall|i: int| 0 <= i < tcnt.len() ==> !is_nl(#[trigger] tcnt[i]));
    lemma_lines_prefix(tcnt, tls);
    assert(tls =~= tls + Seq::<u8>::empty());
    lemma_lines_of_tri_lines(ts, tn, Seq::<u8>::empty());
    assert(spec_lines(Seq::<u8>::empty()) == Seq::<Seq<u8>>::empty());
    let vlines = Seq::new(pn as nat, |i: int| spec_vertex_line(vs[i], c, p));
    let tlines = Seq::new(tn as nat, |i: int| spec_tri_line(ts[i]));
    let ls = spec_lines(out);
    assert(spec_lines(tls) =~= tlines);
    assert(spec_lines(vls + tail) =~= vlines + (seq![tcnt] + tlines));
    assert(ls =~= seq![cnt] + (vlines + (seq![tcnt] + tlines)));
    assert(ls.len() == 2 + pn + tn);
    assert(ls[0] == cnt);
    assert(forall|i: int| 0 <= i < pn ==> #[trigger] ls[1 + i] == vlines[i]);
    assert(ls[pn + 1] == tcnt);
    assert(forall|i: int| 0 <= i < tn ==> #[trigger] ls[pn + 2 + i] == tlines[i]);
    // the vertex lines are valid and their scale is the precision
    assert forall|j: int| 1 <= j <= pn implies crate::parse::line_scale(#[trigger] ls[j])
        == p by {
        assert(ls[j] == vlines[j - 1]);
        lemma_vertex_line_tokens(vs[j - 1], c, p);
    }
    lemma_vsm_const(ls, pn, p);
    assert forall|i: int| 0 <= i < pn implies vertex_line_ok(#[trigger] ls[1 + i])
        && vertex_fits(ls[1 + i], vertex_scale_max(ls, pn)) by {
        let v = vs[i];
        assert(crate::mesh::coord_ok(v));
        assert(coord_refits(v, c, p));
        lemma_vertex_line_tokens(v, c, p);
        lemma_coord_token(v.x as int, c, p);
        lemma_coord_token(v.y as int, c, p);
        lemma_coord_token(v.z as int, c, p);
        assert(COORD_LIMIT <= MANT_LIMIT);
        assert(vertex_line_ok(ls[1 + i]));
        let vsm = vertex_scale_max(ls, pn);
        assert(vsm == p);
        let l = ls[1 + i];
        let tk = spec_tokens(l);
        assert((vsm - p) as nat == 0);
        assert(pow10(0) == 1);
        assert(unit_val(tk[0], vsm) == dec_signed(tk[0])) by {
            assert(dec_signed(tk[0]) * 1 == dec_signed(tk[0])) by (nonlinear_arith);
        }
        assert(unit_val(tk[1], vsm) == dec_signed(tk[1])) by {
            assert(dec_signed(tk[1]) * 1 == dec_signed(tk[1])) by (nonlinear_arith);
        }
        assert(unit_val(tk[2], vsm) == dec_signed(tk[2])) by {
            assert(dec_signed(tk[2]) * 1 == dec_signed(tk[2])) by (nonlinear_arith);
        }
        assert(vertex_fits(l, vsm));
    }
    // the triangle lines are valid and read back as written
    assert forall|i: int| 0 <= i < tn implies tri_line_ok(#[trigger] ls[pn + 2 + i])
        && tri_of_line(ls[pn + 2 + i]) == ts[i] by {
        assert(ls[pn + 2 + i] == tlines[i]);
        lemma_tri_line_tokens(ts[i]);
    }
    assert forall|q: int| pn + 2 <= q < ls.len() implies tri_line_ok(#[trigger] ls[q]) by {
        assert(ls[q] == tlines[q - pn - 2]);
        lemma_tri_line_tokens(ts[q - pn - 2]);
    }
    assert(nat_token_fits(ls[0]));
    assert(nat_token_fits(ls[pn + 1]));
    assert(input_ok(out));
}

} // verus!
