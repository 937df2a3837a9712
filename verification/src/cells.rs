use vstd::prelude::*;
use vstd::arithmetic::power2::pow2;
use crate::binary64::{
    at_least, at_least_exec, at_most, divide, fits_significand, from_nat, from_u64, lemma_exact,
    lemma_nearest_at_least, lemma_nearest_exact, lemma_nearest_normal, lemma_pow2_values,
    lemma_quotient_at_most, lemma_round_half_away_at_most, lemma_small_integers_exact,
    lemma_times_at_most, nearest, neg_part, pos_part, quotient, round_half_away,
    round_half_away_exec, significand_at, times, times_const, Binary64,
};
use crate::compact::{count_compact, credits_compact, format_count_compact, format_credits_compact};
use crate::duration::{duration_short, format_duration_short};
use crate::text::{decimal, push_char, push_decimal, push_right_aligned, right_aligned};

verus! {

/// `used as f64 / limit as f64 * 100.0`, or `0.0` for a zero limit.
pub open spec fn usage_percent(used: nat, limit: nat) -> (nat, int) {
    if limit > 0 {
        times(quotient(from_nat(used), from_nat(limit)), 100)
    } else {
        (0, 0)
    }
}

/// The color of a usage share: red from 90%, orange from 70%, yellow from
/// 50%, green below.
pub open spec fn usage_color(pct: (nat, int)) -> Seq<char> {
    if at_least(pct, 90) {
        "\x1b[31m"@
    } else if at_least(pct, 70) {
        "\x1b[38;5;208m"@
    } else if at_least(pct, 50) {
        "\x1b[33m"@
    } else {
        "\x1b[32m"@
    }
}

/// `limit.saturating_sub(remaining)`
pub open spec fn used_of(remaining: nat, limit: nat) -> nat {
    if remaining <= limit {
        (limit - remaining) as nat
    } else {
        0
    }
}

/// What `format_credits_cell(label, remaining, limit)` returns.
pub open spec fn credits_cell(label: Seq<char>, remaining: nat, limit: nat) -> Seq<char> {
    "\x1b[90m"@ + right_aligned(label, 5) + "\x1b[0m "@ + usage_color(
        usage_percent(used_of(remaining, limit), limit),
    ) + credits_compact(remaining) + "\x1b[90m/"@ + credits_compact(limit) + "\x1b[0m"@
}

/// What `format_savings_cell(label, value)` returns.
pub open spec fn savings_cell(label: Seq<char>, value: nat) -> Seq<char> {
    label + " \x1b[32m"@ + count_compact(value) + "\x1b[0m"@
}

/// The color for `used` out of `limit`.
pub fn usage_color_of(used: u64, limit: u64) -> (c: &'static str)
    ensures
        c@ == usage_color(usage_percent(used as nat, limit as nat)),
{
    let pct = if limit > 0 {
        times_const(divide(from_u64(used), from_u64(limit)), 100)
    } else {
        Binary64 { significand: 0, exponent: 0 }
    };
    if at_least_exec(pct, 90) {
        "\x1b[31m"
    } else if at_least_exec(pct, 70) {
        "\x1b[38;5;208m"
    } else if at_least_exec(pct, 50) {
        "\x1b[33m"
    } else {
        "\x1b[32m"
    }
}

/// A credits cell: the label right-aligned in five columns, then the
/// remaining credits over the limit, colored by how much is used.
pub fn format_credits_cell(label: &str, remaining: u64, limit: u64) -> (r: String)
    ensures
        r@ == credits_cell(label@, remaining as nat, limit as nat),
{
    let used = limit.saturating_sub(remaining);
    let color = usage_color_of(used, limit);
    let mut r = String::new();
    r.append("\x1b[90m");
    push_right_aligned(&mut r, label, 5);
    r.append("\x1b[0m ");
    r.append(color);
    r.append(format_credits_compact(remaining).as_str());
    r.append("\x1b[90m/");
    r.append(format_credits_compact(limit).as_str());
    r.append("\x1b[0m");
    r
}

/// A savings cell: the label, then the value in compact form, in green.
pub fn format_savings_cell(label: &str, value: u64) -> (r: String)
    ensures
        r@ == savings_cell(label@, value as nat),
{
    let mut r = String::new();
    r.append(label);
    r.append(" \x1b[32m");
    r.append(format_count_compact(value).as_str());
    r.append("\x1b[0m");
    r
}

/// What `render_cost_cell(label, color, amount)` returns.
pub open spec fn cost_cell(label: Seq<char>, color: Seq<char>, amount: Seq<char>) -> Seq<char> {
    "\x1b[90m"@ + right_aligned(label, 5) + "\x1b[0m "@ + color + "$"@ + amount + "\x1b[0m"@
}

/// A cost cell from its parts: the label right-aligned in five columns, then
/// the dollar amount as shown, in `color`.
pub fn render_cost_cell(label: &str, color: &str, amount: &str) -> (r: String)
    ensures
        r@ == cost_cell(label@, color@, amount@),
{
    let mut r = String::new();
    r.append("\x1b[90m");
    push_right_aligned(&mut r, label, 5);
    r.append("\x1b[0m ");
    r.append(color);
    r.append("$");
    r.append(amount);
    r.append("\x1b[0m");
    r
}

/// `c` repeated `n` times.
pub open spec fn repeated(c: char, n: nat) -> Seq<char> {
    Seq::new(n, |i: int| c)
}

/// The usage bar: `filled` full blocks, then light shade up to five segments.
pub open spec fn usage_bar(filled: nat) -> Seq<char> {
    repeated('\u{2588}', filled) + repeated('\u{2591}', if filled < 5 { (5 - filled) as nat } else { 0 })
}

/// What `render_bar_cell` returns: the label, the bar, the shown percentage
/// in `color`, and the time left until the reset when there is one.
pub open spec fn bar_cell(
    label: Seq<char>,
    filled: nat,
    percent: nat,
    color: Seq<char>,
    remaining_secs: Option<int>,
) -> Seq<char> {
    label + " \x1b[90m"@ + usage_bar(filled) + "\x1b[0m "@ + color + decimal(percent)
        + "\x1b[90m%\x1b[0m"@ + match remaining_secs {
        Some(secs) => " \x1b[90m"@ + duration_short(secs) + "\x1b[0m"@,
        None => Seq::empty(),
    }
}

/// The usage bar always has five segments, the first `filled` of them full,
/// for any `filled` up to five.
pub proof fn lemma_usage_bar_segments(filled: nat)
    requires
        filled <= 5,
    ensures
        usage_bar(filled).len() == 5,
        forall|i: int| 0 <= i < filled ==> usage_bar(filled)[i] == '\u{2588}',
        forall|i: int| filled <= i < 5 ==> usage_bar(filled)[i] == '\u{2591}',
{
}

fn push_repeated(out: &mut String, c: char, n: u64)
    ensures
        final(out)@ == old(out)@ + repeated(c, n as nat),
{
    let mut i: u64 = 0;
    while i < n
        invariant
            i <= n,
            out@ == old(out)@ + repeated(c, i as nat),
        decreases n - i,
    {
        push_char(out, c);
        i = i + 1;
        assert(out@ =~= old(out)@ + repeated(c, i as nat));
    }
}

/// A usage cell from its parts: `filled` of the five bar segments, the
/// percentage to show, its color, and the seconds until the limit resets.
pub fn render_bar_cell(
    label: &str,
    filled: u64,
    percent: u64,
    color: &str,
    remaining_secs: Option<i64>,
) -> (r: String)
    ensures
        r@ == bar_cell(
            label@,
            filled as nat,
            percent as nat,
            color@,
            match remaining_secs {
                Some(s) => Some(s as int),
                None => None,
            },
        ),
{
    let mut r = String::new();
    r.append(label);
    r.append(" \x1b[90m");
    push_repeated(&mut r, '\u{2588}', filled);
    push_repeated(&mut r, '\u{2591}', 5u64.saturating_sub(filled));
    r.append("\x1b[0m ");
    r.append(color);
    push_decimal(&mut r, percent);
    r.append("\x1b[90m%\x1b[0m");
    match remaining_secs {
        Some(secs) => {
            r.append(" \x1b[90m");
            r.append(format_duration_short(secs).as_str());
            r.append("\x1b[0m");
        },
        None => {},
    }
    proof {
        assert(r@ =~= bar_cell(
            label@,
            filled as nat,
            percent as nat,
            color@,
            match remaining_secs {
                Some(s) => Some(s as int),
                None => None,
            },
        ));
    }
    r
}

/// `100.0`
pub open spec fn hundred() -> (nat, int) {
    from_nat(100)
}

fn hundred_exec() -> (r: Binary64)
    ensures
        r@ == hundred(),
        r.wf(),
        r.significand > 0,
        r.exponent == -46,
{
    proof {
        lemma_pow2_values();
        vstd::arithmetic::power2::lemma2_to64();
        vstd::arithmetic::power2::lemma_pow2_adds(32, 14);
        lemma_exact(100, 46);
    }
    Binary64 { significand: 7_036_874_417_766_400, exponent: -46 }
}

/// The color of a usage bar: red from 90%, orange from 70%, yellow from 50%,
/// gray below.
pub open spec fn bar_color(pct: (nat, int)) -> Seq<char> {
    if at_least(pct, 90) {
        "\x1b[31m"@
    } else if at_least(pct, 70) {
        "\x1b[38;5;208m"@
    } else if at_least(pct, 50) {
        "\x1b[33m"@
    } else {
        "\x1b[90m"@
    }
}

/// The full segments of the bar for `pct`: `(pct * 5.0 / 100.0).round()`.
pub open spec fn bar_filled(pct: (nat, int)) -> nat {
    round_half_away(quotient(times(pct, 5), hundred()))
}

/// What `format_percent_cell(label, pct, remaining_secs)` returns: the bar
/// cell of a percentage between 0 and 100, shown rounded.
pub open spec fn percent_cell(label: Seq<char>, pct: (nat, int), remaining_secs: Option<int>) -> Seq<
    char,
> {
    bar_cell(label, bar_filled(pct), round_half_away(pct), bar_color(pct), remaining_secs)
}

/// `((used as f64 * 100.0) / window as f64).min(100.0)`, or `0.0` for an
/// empty window: the share of the context window in use.
pub open spec fn context_percent(window: nat, used: nat) -> (nat, int) {
    if window > 0 {
        let p = quotient(times(from_nat(used), 100), from_nat(window));
        if at_least(p, 100) {
            hundred()
        } else {
            p
        }
    } else {
        (0, 0)
    }
}

/// The share of the context window in use is at most 100%.
pub proof fn lemma_context_percent_at_most(window: nat, used: nat)
    ensures
        at_most(context_percent(window, used), 100),
{
    lemma_pow2_values();
    vstd::arithmetic::power2::lemma2_to64();
    vstd::arithmetic::power2::lemma_pow2_adds(32, 14);
    lemma_exact(100, 46);
    let pct = context_percent(window, used);
    if window > 0 {
        let p = quotient(times(from_nat(used), 100), from_nat(window));
        if at_least(p, 100) {
            assert(pct == (100 * pow2(46), -46int));
            assert(pos_part(-46) == 0 && neg_part(-46) == 46);
            assert(100 * pow2(46) * pow2(0) == 100 * pow2(46));
        }
    } else {
        assert(0nat * pow2(0) <= 100 * pow2(0));
    }
    assert(at_most(pct, 100));
}

/// The context-window cell never shows more than 100% nor more than five
/// full segments, so its bar always has its five segments.
pub proof fn lemma_context_bar_bounded(window: nat, used: nat)
    ensures
        round_half_away(context_percent(window, used)) <= 100,
        bar_filled(context_percent(window, used)) <= 5,
        usage_bar(bar_filled(context_percent(window, used))).len() == 5,
{
    lemma_pow2_values();
    vstd::arithmetic::power2::lemma2_to64();
    vstd::arithmetic::power2::lemma_pow2_adds(32, 14);
    lemma_exact(100, 46);
    let pct = context_percent(window, used);
    lemma_context_percent_at_most(window, used);
    lemma_round_half_away_at_most(pct, 100);
    lemma_times_at_most(pct, 5, 100);
    lemma_quotient_at_most(times(pct, 5), 100, 46, 5);
    lemma_round_half_away_at_most(quotient(times(pct, 5), hundred()), 5);
    lemma_usage_bar_segments(bar_filled(pct));
}

/// At 100% the cell shows a bar of five full segments and `100`, in red.
pub proof fn lemma_full_percent_cell(label: Seq<char>)
    ensures
        percent_cell(label, hundred(), None) == bar_cell(label, 5, 100, "\x1b[31m"@, None),
{
    lemma_pow2_values();
    vstd::arithmetic::power2::lemma2_to64();
    vstd::arithmetic::power2::lemma_pow2_adds(32, 12);
    vstd::arithmetic::power2::lemma_pow2_adds(32, 14);
    vstd::arithmetic::power2::lemma_pow2_adds(32, 18);
    vstd::arithmetic::power2::lemma_pow2_adds(32, 19);
    let p44 = pow2(44);
    let p46 = pow2(46);
    let p50 = pow2(50);
    assert(p44 == 0x1000_0000_0000);
    assert(p46 == 0x4000_0000_0000);
    assert(p50 == 0x4_0000_0000_0000);
    lemma_exact(100, 46);
    let h = hundred();
    assert(h == (100 * p46, -46int));
    // 100.0 rounds to 100 and is red
    vstd::arithmetic::div_mod::lemma_fundamental_div_mod_converse(
        (2 * (100 * p46) + p46) as int,
        (2 * p46) as int,
        100,
        p46 as int,
    );
    assert(round_half_away(h) == 100);
    assert(pos_part(-46) == 0 && neg_part(-46) == 46);
    assert(at_least(h, 90));
    // 100.0 * 5.0 == 500.0
    assert(fits_significand(500 * p46, 1, -2));
    assert(significand_at(500 * p46, 1, -2) == 500 * p44);
    lemma_nearest_exact(500 * p46, 1, -46, -2);
    let t = times(h, 5);
    assert(t == (500 * p44, -44int));
    // 500.0 / 100.0 == 5.0
    assert(fits_significand(500 * p44, 100 * p46, 52));
    assert(significand_at(500 * p44, 100 * p46, 52) == 5 * p50);
    lemma_nearest_exact(500 * p44, 100 * p46, 2, 52);
    let f = quotient(t, h);
    assert(f == (5 * p50, -50int));
    vstd::arithmetic::div_mod::lemma_fundamental_div_mod_converse(
        (2 * (5 * p50) + p50) as int,
        (2 * p50) as int,
        5,
        p50 as int,
    );
    assert(round_half_away(f) == 5);
}

/// With no token in use the share of the window is `0.0`, and its cell
/// shows an empty bar and `0`, in gray.
pub proof fn lemma_context_percent_empty(label: Seq<char>, window: nat)
    ensures
        context_percent(window, 0) == (0nat, 0int),
        percent_cell(label, context_percent(window, 0), None) == bar_cell(
            label,
            0,
            0,
            "\x1b[90m"@,
            None,
        ),
{
    lemma_pow2_values();
    assert(from_nat(0) == (0nat, 0int));
    assert(times((0nat, 0int), 100) == (0nat, 0int));
    if window > 0 {
        assert(quotient((0nat, 0int), from_nat(window)) == (0nat, 0int));
        assert(!at_least((0nat, 0int), 100));
    }
    assert(times((0nat, 0int), 5) == (0nat, 0int));
    assert(quotient((0nat, 0int), hundred()) == (0nat, 0int));
    assert(round_half_away((0nat, 0int)) == 0);
    assert(!at_least((0nat, 0int), 50));
}

/// `2^pos(a + b) * 2^neg(a) == 2^neg(a + b) * 2^pos(a) * 2^b` for `b >= 0`:
/// moving `b` from the exponent of a power into a factor.
proof fn lemma_shift_parts(a: int, b: nat)
    ensures
        pow2(pos_part(a + b)) * pow2(neg_part(a)) == pow2(neg_part(a + b)) * pow2(pos_part(a))
            * pow2(b),
{
    let e = pos_part(a + b) + neg_part(a);
    assert(e == neg_part(a + b) + pos_part(a) + b);
    vstd::arithmetic::power2::lemma_pow2_adds(pos_part(a + b), neg_part(a));
    vstd::arithmetic::power2::lemma_pow2_adds(neg_part(a + b), pos_part(a));
    vstd::arithmetic::power2::lemma_pow2_adds(neg_part(a + b) + pos_part(a), b);
}

/// A window in use to its size or beyond is full: its share is `100.0`.
/// (For windows up to `2^53 / 100` tokens, where `100.0` times the size is
/// exact.)
pub proof fn lemma_context_percent_full(window: nat, used: nat)
    requires
        0 < window,
        100 * window <= 0x20_0000_0000_0000,
        window <= used,
    ensures
        context_percent(window, used) == hundred(),
{
    lemma_pow2_values();
    // used as f64 >= window
    let uf = from_nat(used);
    assert(pos_part(0) == 0 && neg_part(0) == 0);
    assert(used * pow2(0) >= window * 1 * pow2(0));
    lemma_nearest_at_least(used, 1, 0, window);
    lemma_nearest_normal(used, 1, 0);
    // used as f64 * 100.0 >= 100 * window
    let pu = pow2(pos_part(uf.1));
    let nu = pow2(neg_part(uf.1));
    assert(uf.0 * 100 * pu >= 100 * window * 1 * nu) by (nonlinear_arith)
        requires
            uf.0 * pu >= window * nu,
    ;
    lemma_nearest_at_least(uf.0 * 100, 1, uf.1, 100 * window);
    let tf = times(uf, 100);
    lemma_nearest_normal(uf.0 * 100, 1, uf.1);
    // window as f64 is exact: (window * 2^j, -j)
    let wf = from_nat(window);
    lemma_small_integers_exact(window);
    let j = neg_part(wf.1);
    assert(wf.1 == -(j as int));
    vstd::arithmetic::power2::lemma_pow2_pos(j);
    assert(wf.0 > 0) by (nonlinear_arith)
        requires
            wf.0 == window * pow2(j),
            window > 0,
            pow2(j) > 0,
    ;
    // (used * 100.0) / window >= 100
    let a = tf.1;
    let k = a + j;
    lemma_shift_parts(a, j);
    vstd::arithmetic::power2::lemma_pow2_pos(neg_part(a));
    let pa = pow2(pos_part(a));
    let na = pow2(neg_part(a));
    let pk = pow2(pos_part(k));
    let nk = pow2(neg_part(k));
    let bj = pow2(j);
    assert(tf.0 * pk >= 100 * wf.0 * nk) by (nonlinear_arith)
        requires
            tf.0 * pa >= 100 * window * na,
            pk * na == nk * pa * bj,
            na > 0,
            wf.0 == window * bj,
    ;
    assert(quotient(tf, wf) == nearest(tf.0, wf.0, k));
    lemma_nearest_at_least(tf.0, wf.0, k, 100);
}

fn bar_color_of(pct: Binary64) -> (c: &'static str)
    requires
        pct.wf(),
        -400 <= pct.exponent <= 60,
    ensures
        c@ == bar_color(pct@),
{
    if at_least_exec(pct, 90) {
        "\x1b[31m"
    } else if at_least_exec(pct, 70) {
        "\x1b[38;5;208m"
    } else if at_least_exec(pct, 50) {
        "\x1b[33m"
    } else {
        "\x1b[90m"
    }
}

/// A usage cell for a binary64 percentage between 0 and 100 (a value that
/// clamping to that range leaves as it is).
pub fn format_percent_cell(label: &str, pct: Binary64, remaining_secs: Option<i64>) -> (r: String)
    requires
        pct.wf(),
        -118 <= pct.exponent <= 0,
        at_most(pct@, 100),
    ensures
        r@ == percent_cell(
            label@,
            pct@,
            match remaining_secs {
                Some(s) => Some(s as int),
                None => None,
            },
        ),
{
    let color = bar_color_of(pct);
    let filled = round_half_away_exec(divide(times_const(pct, 5), hundred_exec()));
    let shown = round_half_away_exec(pct);
    render_bar_cell(label, filled, shown, color, remaining_secs)
}

/// The share of the context window in use, as a binary64 percentage.
pub fn context_percent_exec(window: u64, used: u64) -> (r: Binary64)
    ensures
        r@ == context_percent(window as nat, used as nat),
        r.wf(),
        -118 <= r.exponent <= 0,
        at_most(r@, 100),
{
    proof {
        lemma_context_percent_at_most(window as nat, used as nat);
    }
    if window == 0 {
        return Binary64 { significand: 0, exponent: 0 };
    }
    let p = divide(times_const(from_u64(used), 100), from_u64(window));
    if at_least_exec(p, 100) {
        hundred_exec()
    } else {
        proof {
            lemma_pow2_values();
            if p.significand > 0 && p.exponent > 0 {
                vstd::arithmetic::power2::lemma_pow2_pos(p.exponent as nat);
                assert(p.significand * pow2(p.exponent as nat) >= p.significand) by (nonlinear_arith)
                    requires
                        pow2(p.exponent as nat) >= 1,
                ;
                assert(100 * pow2(0) == 100);
                assert(at_least(p@, 100));
            }
        }
        p
    }
}

} // verus!
