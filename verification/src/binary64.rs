use vstd::prelude::*;
use vstd::arithmetic::power2::*;
use vstd::arithmetic::mul::*;
use vstd::arithmetic::div_mod::*;

verus! {

// ----------------------------------------------------------------------------
// The mathematical model
// ----------------------------------------------------------------------------

/// The integer nearest to `a / b`; a tie goes to the even neighbour.
pub open spec fn round_half_even(a: nat, b: nat) -> nat
    recommends
        b > 0,
{
    let q = a / b;
    let r = a % b;
    if 2 * r < b {
        q
    } else if 2 * r > b {
        q + 1
    } else if q % 2 == 0 {
        q
    } else {
        q + 1
    }
}

/// `p * 2^d / q` lies in `[2^52, 2^53)`: scaled by `2^d`, the positive
/// rational `p / q` has a 53-bit integer part, the width of a binary64
/// significand.
pub open spec fn fits_significand(p: nat, q: nat, d: int) -> bool {
    if d >= 0 {
        pow2(52) * q <= p * pow2(d as nat) && p * pow2(d as nat) < pow2(53) * q
    } else {
        pow2(52) * (q * pow2((-d) as nat)) <= p && p < pow2(53) * (q * pow2((-d) as nat))
    }
}

/// `p * 2^d / q` rounded to an integer, ties to even.
pub open spec fn significand_at(p: nat, q: nat, d: int) -> nat {
    if d >= 0 {
        round_half_even(p * pow2(d as nat), q)
    } else {
        round_half_even(p, q * pow2((-d) as nat))
    }
}

/// The binary64 number nearest to the non-negative rational `p * 2^k / q`
/// (round to nearest, ties to even), as a pair `(m, e)` that stands for
/// `m * 2^e`, with `2^52 <= m < 2^53`; zero is `(0, 0)`.
/// This is IEEE 754 rounding inside the normal range, the only range
/// that the values of this library reach.
pub open spec fn nearest(p: nat, q: nat, k: int) -> (nat, int) {
    if p == 0 {
        (0, 0)
    } else {
        let d = choose|d: int| fits_significand(p, q, d);
        let m = significand_at(p, q, d);
        if m == pow2(53) {
            (pow2(52), k - d + 1)
        } else {
            (m, k - d)
        }
    }
}

/// `n as f64`
pub open spec fn from_nat(n: nat) -> (nat, int) {
    nearest(n, 1, 0)
}

/// `x / y` on binary64 numbers.
pub open spec fn quotient(x: (nat, int), y: (nat, int)) -> (nat, int) {
    nearest(x.0, y.0, x.1 - y.1)
}

/// `x * c` on binary64 numbers, for a constant `c` that is an exact binary64 integer.
pub open spec fn times(x: (nat, int), c: nat) -> (nat, int) {
    nearest(x.0 * c, 1, x.1)
}

pub open spec fn pos_part(e: int) -> nat {
    if e >= 0 { e as nat } else { 0 }
}

pub open spec fn neg_part(e: int) -> nat {
    if e < 0 { (-e) as nat } else { 0 }
}

/// `x >= c` for the binary64 number `x = m * 2^e` and an integer `c`.
pub open spec fn at_least(x: (nat, int), c: nat) -> bool {
    x.0 * pow2(pos_part(x.1)) >= c * pow2(neg_part(x.1))
}

/// `x <= c` for the binary64 number `x = m * 2^e` and an integer `c`.
pub open spec fn at_most(x: (nat, int), c: nat) -> bool {
    x.0 * pow2(pos_part(x.1)) <= c * pow2(neg_part(x.1))
}

/// The rational `p * 2^k / q` is at most `c`.
pub open spec fn ratio_at_most(p: nat, q: nat, k: int, c: nat) -> bool {
    p * pow2(pos_part(k)) <= c * q * pow2(neg_part(k))
}

/// The integer nearest to `x * s`, ties to even.
pub open spec fn round_scaled(x: (nat, int), s: nat) -> nat {
    if x.1 >= 0 {
        x.0 * s * pow2(x.1 as nat)
    } else {
        round_half_even(x.0 * s, pow2((-x.1) as nat))
    }
}

/// `x.round()`: the integer nearest to `x >= 0`, ties away from zero.
pub open spec fn round_half_away(x: (nat, int)) -> nat {
    if x.1 >= 0 {
        x.0 * pow2(x.1 as nat)
    } else {
        (2 * x.0 + pow2((-x.1) as nat)) / (2 * pow2((-x.1) as nat))
    }
}

// ----------------------------------------------------------------------------
// Lemmas
// ----------------------------------------------------------------------------

pub proof fn lemma_pow2_values()
    ensures
        pow2(0) == 1,
        pow2(1) == 2,
        pow2(7) == 0x80,
        pow2(52) == 0x10_0000_0000_0000,
        pow2(53) == 0x20_0000_0000_0000,
        pow2(59) == 0x800_0000_0000_0000,
        pow2(60) == 0x1000_0000_0000_0000,
        pow2(64) == 0x1_0000_0000_0000_0000,
        pow2(80) == 0x1_0000_0000_0000_0000_0000,
{
    lemma2_to64();
    lemma_pow2_adds(64, 16);
    lemma_pow2_adds(32, 20);
    lemma_pow2_adds(32, 21);
    lemma_pow2_adds(32, 27);
    lemma_pow2_adds(32, 28);
}

proof fn lemma_pow2_126()
    ensures
        pow2(126) == 0x4000_0000_0000_0000_0000_0000_0000_0000,
{
    lemma2_to64();
    lemma_pow2_adds(32, 30);
    lemma_pow2_adds(64, 62);
}

proof fn lemma_pow2_mono(a: nat, b: nat)
    requires
        a <= b,
    ensures
        pow2(a) <= pow2(b),
{
    if a < b {
        lemma_pow2_strictly_increases(a, b);
    }
}

/// Rescaling the condition of `fits_significand` to a common power `2^a`.
proof fn lemma_fits_rescaled(p: nat, q: nat, d: int, a: nat)
    requires
        fits_significand(p, q, d),
        a >= d,
    ensures
        pow2(52) * q * pow2((a - d) as nat) <= p * pow2(a),
        p * pow2(a) < pow2(53) * q * pow2((a - d) as nat),
{
    let t = pow2((a - d) as nat);
    lemma_pow2_pos((a - d) as nat);
    if d >= 0 {
        let dd = d as nat;
        lemma_pow2_adds(dd, (a - d) as nat);
        assert(pow2(a) == pow2(dd) * t);
        let x = pow2(dd);
        assert(pow2(52) * q * t <= p * pow2(a)) by (nonlinear_arith)
            requires
                pow2(52) * q <= p * x,
                pow2(a) == x * t,
                t > 0,
        ;
        assert(p * pow2(a) < pow2(53) * q * t) by (nonlinear_arith)
            requires
                p * x < pow2(53) * q,
                pow2(a) == x * t,
                t > 0,
        ;
    } else {
        let nd = (-d) as nat;
        lemma_pow2_adds(a, nd);
        assert(t == pow2(a) * pow2(nd));
        let w = pow2(a);
        let y = pow2(nd);
        lemma_pow2_pos(a);
        assert(pow2(52) * q * t <= p * pow2(a)) by (nonlinear_arith)
            requires
                pow2(52) * (q * y) <= p,
                t == w * y,
                w == pow2(a),
                w > 0,
        ;
        assert(p * pow2(a) < pow2(53) * q * t) by (nonlinear_arith)
            requires
                p < pow2(53) * (q * y),
                t == w * y,
                w == pow2(a),
                w > 0,
        ;
    }
}

/// At most one scaling exponent brings a positive rational into `[2^52, 2^53)`.
pub proof fn lemma_fits_unique(p: nat, q: nat, d1: int, d2: int)
    requires
        q > 0,
        fits_significand(p, q, d1),
        fits_significand(p, q, d2),
    ensures
        d1 == d2,
{
    if d1 != d2 {
        let (lo, hi) = if d1 < d2 { (d1, d2) } else { (d2, d1) };
        let a: nat = if hi >= 0 { hi as nat } else { 0 };
        lemma_fits_rescaled(p, q, lo, a);
        lemma_fits_rescaled(p, q, hi, a);
        let tlo = pow2((a - lo) as nat);
        let thi = pow2((a - hi) as nat);
        lemma_pow2_unfold((a - hi + 1) as nat);
        lemma_pow2_mono((a - hi + 1) as nat, (a - lo) as nat);
        assert(2 * thi <= tlo);
        lemma_pow2_values();
        assert(pow2(53) * q * thi <= pow2(52) * q * tlo) by (nonlinear_arith)
            requires
                2 * thi <= tlo,
                pow2(53) == 2 * pow2(52),
                q > 0,
        ;
    }
}

/// A power of two times `n` that lands in `[2^52, 2^53)` gives the exact
/// binary64 form of `n`.
pub proof fn lemma_exact(n: nat, d: nat)
    requires
        pow2(52) <= n * pow2(d) < pow2(53),
    ensures
        from_nat(n) == (n * pow2(d), -(d as int)),
{
    assert(fits_significand(n, 1, d as int));
    let dd = choose|dd: int| fits_significand(n, 1, dd);
    lemma_fits_unique(n, 1, dd, d as int);
    let x = n * pow2(d);
    assert(x / 1 == x && x % 1 == 0);
    assert(significand_at(n, 1, d as int) == x);
    lemma_pow2_values();
    assert(n > 0) by (nonlinear_arith)
        requires
            pow2(52) <= n * pow2(d),
            pow2(52) > 0,
    ;
    assert(x != pow2(53));
}

proof fn lemma_scale_into_range(n: nat) -> (d: nat)
    requires
        0 < n < pow2(53),
    ensures
        pow2(52) <= n * pow2(d) < pow2(53),
    decreases pow2(53) - n,
{
    lemma_pow2_values();
    if n >= pow2(52) {
        assert(n * pow2(0) == n);
        0
    } else {
        let d1 = lemma_scale_into_range(2 * n);
        lemma_pow2_unfold(d1 + 1);
        assert(n * pow2(d1 + 1) == (2 * n) * pow2(d1)) by (nonlinear_arith)
            requires
                pow2(d1 + 1) == 2 * pow2(d1),
        ;
        d1 + 1
    }
}

/// Every integer below `2^53` converts to binary64 exactly: `n as f64`
/// stands for `n` itself.
pub proof fn lemma_small_integers_exact(n: nat)
    requires
        n < pow2(53),
    ensures
        from_nat(n).1 <= 0,
        from_nat(n).0 == n * pow2(neg_part(from_nat(n).1)),
{
    if n == 0 {
        lemma_pow2_values();
    } else {
        let d = lemma_scale_into_range(n);
        lemma_exact(n, d);
    }
}

proof fn lemma_quot_bounds(num: nat, den: nat, lo: nat, hi: nat)
    requires
        den > 0,
        lo * den <= num,
        num < hi * den,
    ensures
        lo <= num / den,
        num / den < hi,
{
    lemma_fundamental_div_mod(num as int, den as int);
    let qq = num / den;
    let rr = num % den;
    assert(lo <= qq) by (nonlinear_arith)
        requires
            num == den * qq + rr,
            0 <= rr < den,
            lo * den <= num,
            den > 0,
    ;
    assert(qq < hi) by (nonlinear_arith)
        requires
            num == den * qq + rr,
            0 <= rr,
            num < hi * den,
            den > 0,
    ;
}

proof fn lemma_fit_up(p: nat, q: nat) -> (d: nat)
    requires
        0 < p,
        0 < q,
        p < pow2(53) * q,
    ensures
        fits_significand(p, q, d as int),
    decreases pow2(53) * q - p,
{
    lemma_pow2_values();
    if p >= pow2(52) * q {
        assert(p * pow2(0) == p);
        0
    } else {
        let d1 = lemma_fit_up(2 * p, q);
        lemma_pow2_unfold(d1 + 1);
        assert(p * pow2(d1 + 1) == (2 * p) * pow2(d1)) by (nonlinear_arith)
            requires
                pow2(d1 + 1) == 2 * pow2(d1),
        ;
        d1 + 1
    }
}

proof fn lemma_fit_down(p: nat, q: nat) -> (j: nat)
    requires
        0 < q,
        pow2(52) * q <= p,
    ensures
        pow2(52) * (q * pow2(j)) <= p < pow2(53) * (q * pow2(j)),
    decreases p - pow2(52) * q,
{
    lemma_pow2_values();
    if p < pow2(53) * q {
        assert(q * pow2(0) == q);
        0
    } else {
        let j1 = lemma_fit_down(p, 2 * q);
        lemma_pow2_unfold(j1 + 1);
        assert(q * pow2(j1 + 1) == (2 * q) * pow2(j1)) by (nonlinear_arith)
            requires
                pow2(j1 + 1) == 2 * pow2(j1),
        ;
        j1 + 1
    }
}

/// Every positive rational has a scaling into `[2^52, 2^53)`.
pub proof fn lemma_fits_exists(p: nat, q: nat)
    requires
        0 < p,
        0 < q,
    ensures
        exists|d: int| fits_significand(p, q, d),
{
    lemma_pow2_values();
    if p < pow2(53) * q {
        let d = lemma_fit_up(p, q);
        assert(fits_significand(p, q, d as int));
    } else {
        let j = lemma_fit_down(p, q);
        if j == 0 {
            assert(q * pow2(0) == q);
            assert(p * pow2(0) == p);
            assert(fits_significand(p, q, 0));
        } else {
            assert(fits_significand(p, q, -(j as int)));
        }
    }
}

/// The rounding of a positive rational has a 53-bit significand.
pub proof fn lemma_nearest_normal(p: nat, q: nat, k: int)
    requires
        0 < p,
        0 < q,
    ensures
        pow2(52) <= nearest(p, q, k).0 < pow2(53),
{
    lemma_fits_exists(p, q);
    let d = choose|d: int| fits_significand(p, q, d);
    lemma_pow2_values();
    let (num, den) = if d >= 0 {
        (p * pow2(d as nat), q)
    } else {
        (p, q * pow2((-d) as nat))
    };
    lemma_pow2_pos((-d) as nat);
    assert(den > 0) by (nonlinear_arith)
        requires
            den == q || den == q * pow2((-d) as nat),
            q > 0,
            pow2((-d) as nat) > 0,
    ;
    lemma_quot_bounds(num, den, pow2(52), pow2(53));
}

/// `rhe(num, den) <= t` when `num / den <= t`.
proof fn lemma_round_at_most(num: nat, den: nat, t: nat)
    requires
        den > 0,
        num <= t * den,
    ensures
        round_half_even(num, den) <= t,
{
    lemma_fundamental_div_mod(num as int, den as int);
    let qq = num / den;
    let rr = num % den;
    assert(qq <= t) by (nonlinear_arith)
        requires
            num == den * qq + rr,
            0 <= rr,
            num <= t * den,
            den > 0,
    ;
    if qq == t {
        assert(rr == 0) by (nonlinear_arith)
            requires
                num == den * qq + rr,
                0 <= rr,
                num <= t * den,
                qq == t,
        ;
    }
}

/// Rounding to binary64 never passes an integer bound up to `2^52` that the
/// exact value respects: every such integer is itself a binary64 number.
pub proof fn lemma_nearest_at_most(p: nat, q: nat, k: int, c: nat)
    requires
        0 < p,
        0 < q,
        1 <= c <= pow2(52),
        ratio_at_most(p, q, k, c),
    ensures
        at_most(nearest(p, q, k), c),
{
    lemma_pow2_values();
    lemma_fits_exists(p, q);
    let d = choose|d: int| fits_significand(p, q, d);
    let pk = pos_part(k);
    let nk = neg_part(k);
    lemma_pow2_pos(pk);
    lemma_pow2_pos(nk);
    // the scaled fraction num / den lies in [2^52, 2^53); show num <= c * 2^s * den, s = d - k >= 0
    let s: int = d - k;
    if d >= 0 {
        let dd = d as nat;
        let num = p * pow2(dd);
        let den = q;
        if k >= 0 {
            assert(pk == k && nk == 0);
            if d < k {
                let g = (k - d) as nat;
                lemma_pow2_adds(dd, g);
                lemma_pow2_mono(1, g);
                let x = p * pow2(dd);
                assert(p * pow2(pk) == x * pow2(g)) by (nonlinear_arith)
                    requires
                        x == p * pow2(dd),
                        pow2(pk) == pow2(dd) * pow2(g),
                ;
                assert(x * pow2(g) >= 2 * (pow2(52) * q)) by (nonlinear_arith)
                    requires
                        x >= pow2(52) * q,
                        pow2(g) >= 2,
                ;
                assert(c * q * pow2(nk) <= pow2(52) * q) by (nonlinear_arith)
                    requires
                        pow2(nk) == 1,
                        c <= pow2(52),
                ;
                assert(pow2(52) * q > 0) by (nonlinear_arith)
                    requires
                        q > 0,
                        pow2(52) > 0,
                ;
                assert(false);
            }
            let g = (d - k) as nat;
            lemma_pow2_adds(pk, g);
            assert(num <= c * pow2(g) * den) by (nonlinear_arith)
                requires
                    num == p * pow2(dd),
                    den == q,
                    pow2(dd) == pow2(pk) * pow2(g),
                    p * pow2(pk) <= c * q * pow2(nk),
                    pow2(nk) == 1,
            ;
            lemma_round_at_most(num, den, c * pow2(g));
        } else {
            assert(pk == 0 && nk == -k);
            let g = (d - k) as nat;
            lemma_pow2_adds(nk, dd);
            assert(num <= c * pow2(g) * den) by (nonlinear_arith)
                requires
                    num == p * pow2(dd),
                    den == q,
                    pow2(g) == pow2(nk) * pow2(dd),
                    p * pow2(pk) <= c * q * pow2(nk),
                    pow2(pk) == 1,
            ;
            lemma_round_at_most(num, den, c * pow2(g));
        }
    } else {
        let nd = (-d) as nat;
        let num = p;
        let den = q * pow2(nd);
        lemma_pow2_pos(nd);
        lemma_pow2_mono(1, nd);
        if k >= 0 {
            assert(pk == k && nk == 0);
            assert(p * pow2(pk) >= p) by (nonlinear_arith)
                requires
                    pow2(pk) >= 1,
            ;
            assert(pow2(52) * (q * pow2(nd)) >= pow2(52) * (2 * q)) by (nonlinear_arith)
                requires
                    pow2(nd) >= 2,
                    pow2(52) > 0,
            ;
            assert(c * q * pow2(nk) <= pow2(52) * q) by (nonlinear_arith)
                requires
                    pow2(nk) == 1,
                    c <= pow2(52),
            ;
            assert(pow2(52) * q > 0) by (nonlinear_arith)
                requires
                    q > 0,
                    pow2(52) > 0,
            ;
            assert(false);
        } else {
            assert(pk == 0 && nk == -k);
            if nk < nd {
                lemma_pow2_strictly_increases(nk, nd);
                assert(pow2(pk) == 1);
                assert(p * pow2(pk) == p) by (nonlinear_arith)
                    requires
                        pow2(pk) == 1,
                ;
                assert(c * q * pow2(nk) <= pow2(52) * (q * pow2(nk))) by (nonlinear_arith)
                    requires
                        c <= pow2(52),
                ;
                assert(pow2(52) * (q * pow2(nk)) < pow2(52) * (q * pow2(nd))) by (nonlinear_arith)
                    requires
                        pow2(nk) < pow2(nd),
                        q > 0,
                        pow2(52) > 0,
                ;
                assert(false);
            }
            let g = (nk - nd) as nat;
            lemma_pow2_adds(g, nd);
            assert(num <= c * pow2(g) * den) by (nonlinear_arith)
                requires
                    num == p,
                    den == q * pow2(nd),
                    pow2(nk) == pow2(g) * pow2(nd),
                    p * pow2(pk) <= c * q * pow2(nk),
                    pow2(pk) == 1,
            ;
            lemma_round_at_most(num, den, c * pow2(g));
        }
    }
    // now the significand m <= c * 2^s with s >= 0, and the exponent is -s (or -s + 1 on a carry)
    let g = s as nat;
    let m = significand_at(p, q, d);
    assert(m <= c * pow2(g));
    let r = nearest(p, q, k);
    if m == pow2(53) {
        if g == 0 {
            assert(c * pow2(0) == c);
            assert(false);
        }
        lemma_pow2_unfold(g);
        assert(r == (pow2(52), 1 - s));
        assert(pos_part(r.1) == 0 && neg_part(r.1) == (g - 1) as nat);
        assert(pow2(52) * pow2(0) <= c * pow2((g - 1) as nat)) by (nonlinear_arith)
            requires
                pow2(53) <= c * pow2(g),
                pow2(g) == 2 * pow2((g - 1) as nat),
                pow2(53) == 2 * pow2(52),
                pow2(0) == 1,
        ;
    } else {
        assert(r == (m, -s));
        assert(pos_part(r.1) == 0 && neg_part(r.1) == g);
        assert(m * pow2(0) == m);
    }
}

/// `rhe(num, den) >= t` when `num / den >= t`.
proof fn lemma_round_at_least(num: nat, den: nat, t: nat)
    requires
        den > 0,
        num >= t * den,
    ensures
        round_half_even(num, den) >= t,
{
    lemma_fundamental_div_mod(num as int, den as int);
    let qq = num / den;
    let rr = num % den;
    assert(qq >= t) by (nonlinear_arith)
        requires
            num == den * qq + rr,
            0 <= rr < den,
            num >= t * den,
            den > 0,
    ;
}

/// Rounding to binary64 never falls below an integer bound up to `2^53`
/// that the exact value respects: every such integer is itself a binary64
/// number.
pub proof fn lemma_nearest_at_least(p: nat, q: nat, k: int, c: nat)
    requires
        0 < p,
        0 < q,
        c <= pow2(53),
        p * pow2(pos_part(k)) >= c * q * pow2(neg_part(k)),
    ensures
        at_least(nearest(p, q, k), c),
{
    lemma_pow2_values();
    lemma_fits_exists(p, q);
    lemma_nearest_normal(p, q, k);
    let d = choose|d: int| fits_significand(p, q, d);
    let pk = pos_part(k);
    let nk = neg_part(k);
    let m = significand_at(p, q, d);
    let r = nearest(p, q, k);
    if d < k {
        assert(r.1 >= 1);
        let e = r.1 as nat;
        lemma_pow2_mono(1, e);
        assert(pos_part(r.1) == e && neg_part(r.1) == 0);
        assert(r.0 * pow2(e) >= c * pow2(0)) by (nonlinear_arith)
            requires
                r.0 >= pow2(52),
                pow2(e) >= 2,
                c <= pow2(53),
                pow2(53) == 2 * pow2(52),
                pow2(0) == 1,
        ;
    } else {
        let g = (d - k) as nat;
        if d >= 0 {
            let dd = d as nat;
            let num = p * pow2(dd);
            if k >= 0 {
                assert(dd == pk + g);
                lemma_pow2_adds(pk, g);
                assert(num >= c * pow2(g) * q) by (nonlinear_arith)
                    requires
                        num == p * pow2(dd),
                        pow2(dd) == pow2(pk) * pow2(g),
                        p * pow2(pk) >= c * q * pow2(nk),
                        pow2(nk) == 1,
                ;
            } else {
                assert(g == nk + dd);
                lemma_pow2_adds(nk, dd);
                assert(num >= c * pow2(g) * q) by (nonlinear_arith)
                    requires
                        num == p * pow2(dd),
                        pow2(g) == pow2(nk) * pow2(dd),
                        p * pow2(pk) >= c * q * pow2(nk),
                        pow2(pk) == 1,
                ;
            }
            lemma_round_at_least(num, q, c * pow2(g));
        } else {
            let nd = (-d) as nat;
            let den = q * pow2(nd);
            lemma_pow2_pos(nd);
            assert(nk == g + nd);
            lemma_pow2_adds(g, nd);
            assert(den > 0) by (nonlinear_arith)
                requires
                    den == q * pow2(nd),
                    q > 0,
                    pow2(nd) > 0,
            ;
            assert(p >= c * pow2(g) * den) by (nonlinear_arith)
                requires
                    den == q * pow2(nd),
                    pow2(nk) == pow2(g) * pow2(nd),
                    p * pow2(pk) >= c * q * pow2(nk),
                    pow2(pk) == 1,
            ;
            lemma_round_at_least(p, den, c * pow2(g));
        }
        assert(m >= c * pow2(g));
        if m == pow2(53) {
            if g == 0 {
                assert(r == (pow2(52), 1int));
                assert(pos_part(r.1) == 1 && neg_part(r.1) == 0);
                assert(pow2(52) * pow2(1) >= c * pow2(0)) by (nonlinear_arith)
                    requires
                        pow2(53) >= c * pow2(0),
                        pow2(1) == 2,
                        pow2(53) == 2 * pow2(52),
                        pow2(0) == 1,
                ;
            } else {
                lemma_pow2_unfold(g);
                assert(r == (pow2(52), 1 - (g as int)));
                assert(pos_part(r.1) == 0 && neg_part(r.1) == (g - 1) as nat);
                assert(pow2(52) * pow2(0) >= c * pow2((g - 1) as nat)) by (nonlinear_arith)
                    requires
                        pow2(53) >= c * pow2(g),
                        pow2(g) == 2 * pow2((g - 1) as nat),
                        pow2(53) == 2 * pow2(52),
                        pow2(0) == 1,
                ;
            }
        } else {
            assert(r == (m, -(g as int)));
            assert(pos_part(r.1) == 0 && neg_part(r.1) == g);
            assert(m * pow2(0) == m);
        }
    }
}

/// Where one scaling exponent `d` brings `p / q` into `[2^52, 2^53)` and the
/// rounded significand does not carry, it is the binary64 form of `p * 2^k / q`.
pub proof fn lemma_nearest_exact(p: nat, q: nat, k: int, d: int)
    requires
        q > 0,
        fits_significand(p, q, d),
        significand_at(p, q, d) != pow2(53),
    ensures
        nearest(p, q, k) == (significand_at(p, q, d), k - d),
{
    lemma_pow2_values();
    if d >= 0 {
        assert(p > 0) by (nonlinear_arith)
            requires
                pow2(52) * q <= p * pow2(d as nat),
                pow2(52) > 0,
                q > 0,
        ;
    } else {
        assert(p > 0) by (nonlinear_arith)
            requires
                pow2(52) * (q * pow2((-d) as nat)) <= p,
                pow2(52) > 0,
                q > 0,
                pow2((-d) as nat) > 0,
        {
            lemma_pow2_pos((-d) as nat);
        }
    }
    let dd = choose|dd: int| fits_significand(p, q, dd);
    lemma_fits_unique(p, q, dd, d);
}

/// `x * c` stays at most `c * b` when `x` is at most `b`.
pub proof fn lemma_times_at_most(x: (nat, int), c: nat, b: nat)
    requires
        at_most(x, b),
        1 <= c,
        1 <= c * b <= pow2(52),
    ensures
        at_most(times(x, c), c * b),
{
    if x.0 * c > 0 {
        let pp = pow2(pos_part(x.1));
        let np = pow2(neg_part(x.1));
        assert(x.0 * c * pp <= c * b * 1 * np) by (nonlinear_arith)
            requires
                x.0 * pp <= b * np,
                c >= 1,
        ;
        lemma_nearest_at_most(x.0 * c, 1, x.1, c * b);
    } else {
        lemma_pow2_values();
        assert(times(x, c) == (0nat, 0int));
    }
}

/// `x / y` stays at most `b` when `x` is at most `n * b` and `y` is the exact
/// binary64 form `(n * 2^j, -j)` of the integer `n`.
pub proof fn lemma_quotient_at_most(x: (nat, int), n: nat, j: nat, b: nat)
    requires
        at_most(x, n * b),
        1 <= n,
        1 <= b <= pow2(52),
    ensures
        at_most(quotient(x, (n * pow2(j), -(j as int))), b),
{
    lemma_pow2_values();
    lemma_pow2_pos(j);
    let q = n * pow2(j);
    let k = x.1 + j;
    if x.0 == 0 {
        assert(quotient(x, (q, -(j as int))) == (0nat, 0int));
        assert(0nat * pow2(0) <= b * pow2(0));
        return;
    }
    assert(q > 0) by (nonlinear_arith)
        requires
            q == n * pow2(j),
            n >= 1,
            pow2(j) > 0,
    ;
    let e = x.1;
    lemma_pow2_pos(pos_part(e));
    lemma_pow2_pos(neg_part(e));
    lemma_pow2_pos(pos_part(k));
    lemma_pow2_pos(neg_part(k));
    if e >= 0 {
        lemma_pow2_adds(e as nat, j);
        assert(pos_part(k) == e + j && neg_part(k) == 0);
        assert(x.0 * pow2(pos_part(k)) <= b * q * pow2(neg_part(k))) by (nonlinear_arith)
            requires
                x.0 * pow2(pos_part(e)) <= n * b * pow2(neg_part(e)),
                pow2(neg_part(e)) == 1,
                pow2(pos_part(e)) == pow2(e as nat),
                pow2(pos_part(k)) == pow2(e as nat) * pow2(j),
                pow2(neg_part(k)) == 1,
                q == n * pow2(j),
        ;
    } else if k >= 0 {
        let ne = (-e) as nat;
        let kk = k as nat;
        lemma_pow2_adds(ne, kk);
        assert(ne + kk == j);
        assert(x.0 * pow2(pos_part(k)) <= b * q * pow2(neg_part(k))) by (nonlinear_arith)
            requires
                x.0 * pow2(pos_part(e)) <= n * b * pow2(neg_part(e)),
                pow2(pos_part(e)) == 1,
                pow2(neg_part(e)) == pow2(ne),
                pow2(pos_part(k)) == pow2(kk),
                pow2(neg_part(k)) == 1,
                pow2(j) == pow2(ne) * pow2(kk),
                q == n * pow2(j),
        ;
    } else {
        let ne = (-e) as nat;
        let nk = (-k) as nat;
        lemma_pow2_adds(j, nk);
        assert(j + nk == ne);
        assert(x.0 * pow2(pos_part(k)) <= b * q * pow2(neg_part(k))) by (nonlinear_arith)
            requires
                x.0 * pow2(pos_part(e)) <= n * b * pow2(neg_part(e)),
                pow2(pos_part(e)) == 1,
                pow2(neg_part(e)) == pow2(ne),
                pow2(pos_part(k)) == 1,
                pow2(neg_part(k)) == pow2(nk),
                pow2(ne) == pow2(j) * pow2(nk),
                q == n * pow2(j),
        ;
    }
    lemma_nearest_at_most(x.0, q, k, b);
}

/// `x.round()` stays at most an integer bound of `x`.
pub proof fn lemma_round_half_away_at_most(x: (nat, int), c: nat)
    requires
        at_most(x, c),
    ensures
        round_half_away(x) <= c,
{
    lemma_pow2_values();
    if x.1 >= 0 {
        assert(pos_part(x.1) == x.1 && neg_part(x.1) == 0);
        assert(c * pow2(0) == c);
    } else {
        let n = (-x.1) as nat;
        assert(pos_part(x.1) == 0 && neg_part(x.1) == n);
        let pn = pow2(n);
        lemma_pow2_pos(n);
        assert(x.0 * pow2(0) == x.0);
        let num = 2 * x.0 + pn;
        let den = 2 * pn;
        assert(num < (c + 1) * den) by (nonlinear_arith)
            requires
                x.0 <= c * pn,
                num == 2 * x.0 + pn,
                den == 2 * pn,
                pn > 0,
        ;
        lemma_quot_bounds(num, den, 0, c + 1);
    }
}

// ----------------------------------------------------------------------------
// Executable binary64 arithmetic on integers
// ----------------------------------------------------------------------------

/// A binary64 number `significand * 2^exponent`, as IEEE 754 rounding leaves it.
#[derive(Clone, Copy)]
pub struct Binary64 {
    pub significand: u64,
    pub exponent: i64,
}

impl View for Binary64 {
    type V = (nat, int);

    open spec fn view(&self) -> (nat, int) {
        (self.significand as nat, self.exponent as int)
    }
}

impl Binary64 {
    /// Zero is `(0, 0)`; any other value has a 53-bit significand.
    pub open spec fn wf(self) -> bool {
        (self.significand == 0 && self.exponent == 0) || (pow2(52) <= self.significand
            && self.significand < pow2(53))
    }
}

fn pow2_exec(n: u32) -> (r: u128)
    requires
        n <= 126,
    ensures
        r == pow2(n as nat),
{
    proof {
        lemma_pow2_values();
        lemma_pow2_126();
    }
    let mut r: u128 = 1;
    let mut i: u32 = 0;
    while i < n
        invariant
            i <= n,
            n <= 126,
            r == pow2(i as nat),
            pow2(126) == 0x4000_0000_0000_0000_0000_0000_0000_0000,
        decreases n - i,
    {
        proof {
            lemma_pow2_mono(i as nat, 125);
            lemma_pow2_unfold(126);
            lemma_pow2_unfold((i + 1) as nat);
        }
        r = r * 2;
        i = i + 1;
    }
    r
}

/// Rounds `p * 2^k / q` to the nearest binary64 number, given the scaling
/// `2^d` that brings `p / q` into `[2^52, 2^53)`.
fn round_fitted(p: u128, q: u128, d: i64, k: i64) -> (r: Binary64)
    requires
        0 < p < pow2(64),
        0 < q < pow2(64),
        -120 <= d <= 120,
        -1000 <= k <= 1000,
        fits_significand(p as nat, q as nat, d as int),
    ensures
        r@ == nearest(p as nat, q as nat, k as int),
        r.wf(),
        r.significand > 0,
        r.exponent == k - d || r.exponent == k - d + 1,
{
    proof {
        lemma_pow2_values();
    }
    let num: u128;
    let den: u128;
    if d >= 0 {
        let f = pow2_exec(d as u32);
        num = p * f;
        den = q;
    } else {
        let f = pow2_exec((-d) as u32);
        num = p;
        den = q * f;
    }
    assert(pow2(52) * den <= num && num < pow2(53) * den);
    proof {
        lemma_quot_bounds(num as nat, den as nat, pow2(52), pow2(53));
    }
    let m = num / den;
    let rem = num % den;
    let rounded: u128 = if 2 * rem < den {
        m
    } else if 2 * rem > den {
        m + 1
    } else if m % 2 == 0 {
        m
    } else {
        m + 1
    };
    proof {
        let dd = choose|dd: int| fits_significand(p as nat, q as nat, dd);
        lemma_fits_unique(p as nat, q as nat, dd, d as int);
        assert(rounded == significand_at(p as nat, q as nat, d as int));
    }
    if rounded == 0x20_0000_0000_0000 {
        Binary64 { significand: 0x10_0000_0000_0000, exponent: k - d + 1 }
    } else {
        Binary64 { significand: rounded as u64, exponent: k - d }
    }
}

/// `n as f64`
pub fn from_u64(n: u64) -> (r: Binary64)
    ensures
        r@ == from_nat(n as nat),
        r.wf(),
        n > 0 ==> r.significand > 0 && -52 <= r.exponent <= 12,
{
    proof {
        lemma_pow2_values();
    }
    if n == 0 {
        return Binary64 { significand: 0, exponent: 0 };
    }
    if n < 0x20_0000_0000_0000 {
        let mut num: u128 = n as u128;
        let mut d: i64 = 0;
        assert(num == n * pow2(0));
        while num < 0x10_0000_0000_0000
            invariant
                0 < n < pow2(53),
                0 <= d <= 52,
                num == n * pow2(d as nat),
                num < pow2(53),
                pow2(52) == 0x10_0000_0000_0000,
                pow2(53) == 0x20_0000_0000_0000,
            decreases 52 - d,
        {
            proof {
                if d >= 52 {
                    lemma_pow2_mono(52, d as nat);
                    assert(n * pow2(d as nat) >= pow2(d as nat)) by (nonlinear_arith)
                        requires
                            n >= 1,
                    ;
                }
                lemma_pow2_unfold((d + 1) as nat);
                assert(num * 2 == n * pow2((d + 1) as nat)) by (nonlinear_arith)
                    requires
                        num == n * pow2(d as nat),
                        pow2((d + 1) as nat) == 2 * pow2(d as nat),
                ;
            }
            num = num * 2;
            d = d + 1;
        }
        round_fitted(n as u128, 1, d, 0)
    } else {
        let mut den: u128 = 1;
        let mut j: i64 = 0;
        while n as u128 >= 0x20_0000_0000_0000 * den
            invariant
                den == pow2(j as nat),
                0 <= j <= 11,
                pow2(52) * den <= n,
                n < pow2(64),
                pow2(52) == 0x10_0000_0000_0000,
                pow2(53) == 0x20_0000_0000_0000,
                pow2(64) == 0x1_0000_0000_0000_0000,
            decreases 11 - j,
        {
            proof {
                lemma_pow2_unfold((j + 1) as nat);
                if j >= 11 {
                    lemma_pow2_adds(53, j as nat);
                    lemma_pow2_mono(64, (53 + j) as nat);
                }
            }
            den = den * 2;
            j = j + 1;
        }
        round_fitted(n as u128, 1, -j, 0)
    }
}

/// `x / y`
pub fn divide(x: Binary64, y: Binary64) -> (r: Binary64)
    requires
        x.wf(),
        y.wf(),
        y.significand > 0,
        -400 <= x.exponent <= 400,
        -400 <= y.exponent <= 400,
    ensures
        r@ == quotient(x@, y@),
        r.wf(),
        x.significand > 0 ==> r.significand > 0 && x.exponent - y.exponent - 53 <= r.exponent
            <= x.exponent - y.exponent - 51,
{
    proof {
        lemma_pow2_values();
    }
    if x.significand == 0 {
        return Binary64 { significand: 0, exponent: 0 };
    }
    let d: i64 = if x.significand >= y.significand {
        52
    } else {
        53
    };
    proof {
        let mx = x.significand as nat;
        let my = y.significand as nat;
        let c52 = pow2(52);
        if d == 52 {
            assert(c52 * my <= mx * c52 && mx * c52 < 2 * c52 * my) by (nonlinear_arith)
                requires
                    my <= mx,
                    mx < 2 * c52,
                    c52 <= my,
                    c52 > 0,
            ;
            assert(fits_significand(mx, my, 52int));
        } else {
            assert(c52 * my <= mx * (2 * c52) && mx * (2 * c52) < 2 * c52 * my) by (nonlinear_arith)
                requires
                    mx < my,
                    my < 2 * c52,
                    c52 <= mx,
                    c52 > 0,
            ;
            assert(fits_significand(mx, my, 53int));
        }
    }
    round_fitted(x.significand as u128, y.significand as u128, d, x.exponent - y.exponent)
}

/// `x * c` for a small integer constant `c`.
pub fn times_const(x: Binary64, c: u64) -> (r: Binary64)
    requires
        x.wf(),
        -400 <= x.exponent <= 400,
        2 <= c < 1024,
    ensures
        r@ == times(x@, c as nat),
        r.wf(),
        x.significand > 0 ==> r.significand > 0 && x.exponent <= r.exponent <= x.exponent + 11,
{
    proof {
        lemma_pow2_values();
        lemma2_to64();
    }
    if x.significand == 0 {
        assert(x@.0 * c == 0);
        return Binary64 { significand: 0, exponent: 0 };
    }
    assert(x.significand * c < 0x20_0000_0000_0000 * 1024) by (nonlinear_arith)
        requires
            x.significand < 0x20_0000_0000_0000,
            c < 1024,
    ;
    assert(x.significand * c >= 2 * 0x10_0000_0000_0000) by (nonlinear_arith)
        requires
            x.significand >= 0x10_0000_0000_0000,
            c >= 2,
    ;
    let p: u128 = x.significand as u128 * c as u128;
    let mut den: u128 = 1;
    let mut j: i64 = 0;
    while p >= 0x20_0000_0000_0000 * den
        invariant
            den == pow2(j as nat),
            0 <= j <= 10,
            pow2(52) * den <= p,
            p < 0x20_0000_0000_0000 * 1024,
            pow2(52) == 0x10_0000_0000_0000,
            pow2(10) == 1024,
        decreases 10 - j,
    {
        proof {
            lemma_pow2_unfold((j + 1) as nat);
            if j >= 10 {
                lemma_pow2_mono(10, j as nat);
            }
        }
        den = den * 2;
        j = j + 1;
    }
    proof {
        assert(1 * pow2(j as nat) == den);
        lemma_pow2_mono(j as nat, 10);
    }
    round_fitted(p, 1, -j, x.exponent)
}

/// `x >= c`
pub fn at_least_exec(x: Binary64, c: u64) -> (b: bool)
    requires
        x.wf(),
        -400 <= x.exponent <= 60,
        c <= 0x4000_0000,
    ensures
        b == at_least(x@, c as nat),
{
    proof {
        lemma_pow2_values();
    }
    let e = x.exponent;
    let m = x.significand;
    if e >= 0 {
        let f = pow2_exec(e as u32);
        proof {
            lemma_pow2_mono(e as nat, 60);
            assert(m * f <= pow2(53) * pow2(60)) by (nonlinear_arith)
                requires
                    m < pow2(53),
                    f <= pow2(60),
            ;
            assert(pos_part(e as int) == e && neg_part(e as int) == 0);
        }
        let b = (m as u128) * f >= c as u128;
        proof {
            assert(c * pow2(0) == c);
            assert(b == at_least(x@, c as nat));
        }
        b
    } else if e < -80 {
        proof {
            let n = (-e) as nat;
            assert(pos_part(e as int) == 0 && neg_part(e as int) == n);
            lemma_pow2_mono(53, n);
            assert(m * pow2(0) == m);
            assert(m < pow2(53));
            assert(pow2(53) <= pow2(n));
            let lhs = x@.0 * pow2(pos_part(x@.1));
            let rhs = (c as nat) * pow2(neg_part(x@.1));
            assert(lhs == m);
            assert(rhs == c * pow2(n));
            if c != 0 {
                assert(c * pow2(n) >= pow2(n)) by (nonlinear_arith)
                    requires
                        c >= 1,
                ;
                assert(rhs > lhs);
            } else {
                assert(rhs == 0) by (nonlinear_arith)
                    requires
                        rhs == c * pow2(n),
                        c == 0,
                ;
            }
            assert((c == 0) == at_least(x@, c as nat));
        }
        c == 0
    } else {
        let f = pow2_exec((-e) as u32);
        proof {
            let n = (-e) as nat;
            assert(pos_part(e as int) == 0 && neg_part(e as int) == n);
            lemma_pow2_mono(n, 80);
            assert(c * f <= 0x4000_0000 * pow2(80)) by (nonlinear_arith)
                requires
                    c <= 0x4000_0000,
                    f <= pow2(80),
            ;
        }
        let b = m as u128 >= (c as u128) * f;
        proof {
            assert(m * pow2(0) == m);
            assert(b == at_least(x@, c as nat));
        }
        b
    }
}

/// The integer nearest to `x * s` (ties to even), for `s` of 1 or 10: the
/// digits that `{:.0}` and `{:.1}` print.
pub fn round_scaled_exec(x: Binary64, s: u64) -> (r: u64)
    requires
        x.wf(),
        -120 <= x.exponent <= 6,
        1 <= s <= 10,
    ensures
        r == round_scaled(x@, s as nat),
        r <= x.significand * s * 64 + 1,
{
    proof {
        lemma_pow2_values();
    }
    let e = x.exponent;
    assert(x.significand * s <= 0x20_0000_0000_0000 * 10) by (nonlinear_arith)
        requires
            x.significand < 0x20_0000_0000_0000,
            s <= 10,
    ;
    let ms: u128 = x.significand as u128 * s as u128;
    if e >= 0 {
        let f = pow2_exec(e as u32);
        proof {
            lemma_pow2_mono(e as nat, 6);
            lemma2_to64();
            assert(ms * f <= ms * 64) by (nonlinear_arith)
                requires
                    f <= 64,
            ;
        }
        (ms * f) as u64
    } else {
        let den = pow2_exec((-e) as u32);
        proof {
            lemma_pow2_pos((-e) as nat);
        }
        let q = ms / den;
        let rem = ms % den;
        proof {
            lemma_pow2_mono((-e) as nat, 120);
            lemma_pow2_126();
            lemma_pow2_adds(120, 6);
            lemma2_to64();
            assert(rem < den);
            assert(q <= ms) by (nonlinear_arith)
                requires
                    q == ms / den,
                    den >= 1,
            ;
        }
        if 2 * rem < den {
            q as u64
        } else if 2 * rem > den {
            (q + 1) as u64
        } else if q % 2 == 0 {
            q as u64
        } else {
            (q + 1) as u64
        }
    }
}

/// `x.round()` for a non-negative `x`: the nearest integer, ties away from zero.
pub fn round_half_away_exec(x: Binary64) -> (r: u64)
    requires
        x.wf(),
        -125 <= x.exponent <= 10,
    ensures
        r == round_half_away(x@),
{
    proof {
        lemma_pow2_values();
    }
    let e = x.exponent;
    let m = x.significand as u128;
    if e >= 0 {
        let f = pow2_exec(e as u32);
        proof {
            lemma_pow2_mono(e as nat, 10);
            lemma2_to64();
            assert(m * f <= m * 1024) by (nonlinear_arith)
                requires
                    f <= 1024,
            ;
        }
        (m * f) as u64
    } else {
        let f = pow2_exec((-e) as u32);
        proof {
            lemma_pow2_pos((-e) as nat);
            lemma_pow2_mono((-e) as nat, 125);
            lemma_pow2_126();
            lemma_pow2_unfold(126);
        }
        let r = (2 * m + f) / (2 * f);
        proof {
            assert(r <= 2 * m + f) by (nonlinear_arith)
                requires
                    r == (2 * m + f) / (2 * f),
                    f >= 1,
            ;
            assert(r <= m + 1) by (nonlinear_arith)
                requires
                    r == (2 * m + f) / (2 * f),
                    f >= 1,
            ;
        }
        r as u64
    }
}

} // verus!
