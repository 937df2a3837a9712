use vstd::prelude::*;
use vstd::arithmetic::power2::*;
use crate::binary64::{
    at_least, at_least_exec, divide, from_nat, from_u64, lemma_exact, lemma_pow2_values,
    lemma_small_integers_exact, neg_part, pos_part, quotient, round_half_away,
    round_half_away_exec, round_scaled, round_scaled_exec, Binary64,
};
use crate::text::{decimal, digit_char, digit_of, push_char, push_decimal};

verus! {

/// `format!("{:.0}", x)` (places 0) or `format!("{:.1}", x)` (places 1) of a
/// non-negative binary64 number: its exact value rounded to that many
/// fractional digits, ties to even.
pub open spec fn fixed_point(x: (nat, int), places: nat) -> Seq<char> {
    if places == 0 {
        decimal(round_scaled(x, 1))
    } else {
        let r = round_scaled(x, 10);
        decimal(r / 10) + seq!['.', digit_char(r % 10)]
    }
}

/// `1000.0`, `1_000_000.0` and `1_000_000_000.0` as binary64 numbers.
pub open spec fn thousand() -> (nat, int) {
    from_nat(1000)
}

pub open spec fn million() -> (nat, int) {
    from_nat(1_000_000)
}

pub open spec fn billion() -> (nat, int) {
    from_nat(1_000_000_000)
}

/// What `format_credits_compact(n)` prints: `n` below a thousand, else
/// `n as f64 / 1000.0` with one decimal and a `k`.
pub open spec fn credits_compact(n: nat) -> Seq<char> {
    if n >= 1000 {
        fixed_point(quotient(from_nat(n), thousand()), 1) + seq!['k']
    } else {
        decimal(n)
    }
}

/// What `format_count_compact(n)` prints: with `t = n as f64`, the largest of
/// the units B (10^9), M (10^6) and k (10^3) that `t` reaches, with one
/// decimal; below a thousand, `n` itself.
pub open spec fn count_compact(n: nat) -> Seq<char> {
    let t = from_nat(n);
    if at_least(t, 1_000_000_000) {
        fixed_point(quotient(t, billion()), 1) + seq!['B']
    } else if at_least(t, 1_000_000) {
        fixed_point(quotient(t, million()), 1) + seq!['M']
    } else if at_least(t, 1000) {
        fixed_point(quotient(t, thousand()), 1) + seq!['k']
    } else {
        decimal(n)
    }
}

/// What `format_tokens(n)` prints: with `k = n as f64 / 1000.0`, from 100
/// on `k.round()`, from 10 on `k` with no decimal, below that with one, each
/// followed by `k`.
pub open spec fn tokens_text(n: nat) -> Seq<char> {
    let k = quotient(from_nat(n), thousand());
    if at_least(k, 100) {
        decimal(round_half_away(k)) + seq!['k']
    } else if at_least(k, 10) {
        fixed_point(k, 0) + seq!['k']
    } else {
        fixed_point(k, 1) + seq!['k']
    }
}

fn thousand_exec() -> (r: Binary64)
    ensures
        r@ == thousand(),
        r.wf(),
        r.significand > 0,
        r.exponent == -43,
{
    proof {
        lemma_pow2_values();
        vstd::arithmetic::power2::lemma2_to64();
        lemma_pow2_adds(32, 11);
        lemma_exact(1000, 43);
    }
    Binary64 { significand: 8_796_093_022_208_000, exponent: -43 }
}

fn million_exec() -> (r: Binary64)
    ensures
        r@ == million(),
        r.wf(),
        r.significand > 0,
        r.exponent == -33,
{
    proof {
        lemma_pow2_values();
        vstd::arithmetic::power2::lemma2_to64();
        lemma_pow2_adds(32, 1);
        lemma_exact(1_000_000, 33);
    }
    Binary64 { significand: 8_589_934_592_000_000, exponent: -33 }
}

fn billion_exec() -> (r: Binary64)
    ensures
        r@ == billion(),
        r.wf(),
        r.significand > 0,
        r.exponent == -23,
{
    proof {
        lemma_pow2_values();
        vstd::arithmetic::power2::lemma2_to64();
        lemma_exact(1_000_000_000, 23);
    }
    Binary64 { significand: 8_388_608_000_000_000, exponent: -23 }
}

/// Appends `fixed_point(x, places)`.
pub fn push_fixed(out: &mut String, x: Binary64, places: u64)
    requires
        x.wf(),
        -120 <= x.exponent <= 6,
        places <= 1,
    ensures
        final(out)@ == old(out)@ + fixed_point(x@, places as nat),
{
    if places == 0 {
        let r = round_scaled_exec(x, 1);
        push_decimal(out, r);
    } else {
        let r = round_scaled_exec(x, 10);
        push_decimal(out, r / 10);
        push_char(out, '.');
        push_char(out, digit_of(r % 10));
        assert(final(out)@ =~= old(out)@ + fixed_point(x@, places as nat));
    }
}

/// Credits in compact form: `999`, `1.0k`, `10.1k`, `17.0k`.
pub fn format_credits_compact(n: u64) -> (s: String)
    ensures
        s@ == credits_compact(n as nat),
{
    let mut s = String::new();
    if n >= 1000 {
        let t = from_u64(n);
        let k = divide(t, thousand_exec());
        push_fixed(&mut s, k, 1);
        push_char(&mut s, 'k');
    } else {
        push_decimal(&mut s, n);
    }
    s
}

/// A count in compact form: `999`, `1.0k`, `127.8M`, `2.5B`.
pub fn format_count_compact(n: u64) -> (s: String)
    ensures
        s@ == count_compact(n as nat),
{
    let mut s = String::new();
    let t = from_u64(n);
    if at_least_exec(t, 1_000_000_000) {
        let v = divide(t, billion_exec());
        push_fixed(&mut s, v, 1);
        push_char(&mut s, 'B');
    } else if at_least_exec(t, 1_000_000) {
        let v = divide(t, million_exec());
        push_fixed(&mut s, v, 1);
        push_char(&mut s, 'M');
    } else if at_least_exec(t, 1000) {
        let v = divide(t, thousand_exec());
        push_fixed(&mut s, v, 1);
        push_char(&mut s, 'k');
    } else {
        push_decimal(&mut s, n);
    }
    s
}

/// A token count in thousands: `0.5k`, `12k`, `128k`.
pub fn format_tokens(tokens: u64) -> (s: String)
    ensures
        s@ == tokens_text(tokens as nat),
{
    let mut s = String::new();
    let k = divide(from_u64(tokens), thousand_exec());
    if at_least_exec(k, 100) {
        let r = round_half_away_exec(k);
        push_decimal(&mut s, r);
    } else if at_least_exec(k, 10) {
        push_fixed(&mut s, k, 0);
    } else {
        push_fixed(&mut s, k, 1);
    }
    push_char(&mut s, 'k');
    s
}

/// Below a million, counts and credits print alike: `n as f64` is exact
/// there, so the count never reaches the M or B unit.
pub proof fn lemma_counts_agree_below_million(n: nat)
    requires
        n < 1_000_000,
    ensures
        count_compact(n) == credits_compact(n),
{
    lemma_pow2_values();
    lemma_small_integers_exact(n);
    let t = from_nat(n);
    let k = neg_part(t.1);
    assert(pos_part(t.1) == 0);
    lemma_pow2_pos(k);
    assert forall|c: nat| #[trigger] at_least(t, c) == (n >= c) by {
        assert(t.0 * pow2(0) == t.0);
        assert((n * pow2(k) >= c * pow2(k)) == (n >= c)) by (nonlinear_arith)
            requires
                pow2(k) > 0,
        ;
    }
    assert(at_least(t, 1_000_000_000) == false);
    assert(at_least(t, 1_000_000) == false);
    assert(at_least(t, 1000) == (n >= 1000));
}

} // verus!
