use vstd::prelude::*;
use crate::text::{decimal, push_char, push_decimal};

verus! {

/// What `format_duration_short(total)` prints: the whole number of the
/// largest unit among days, hours and minutes that fits in `total` seconds
/// (seconds below a minute), followed by the unit's letter; a negative
/// `total` counts as zero.
pub open spec fn duration_short(total: int) -> Seq<char> {
    let s: nat = if total > 0 { total as nat } else { 0 };
    if s >= 86400 {
        decimal(s / 86400) + seq!['d']
    } else if s >= 3600 {
        decimal(s / 3600) + seq!['h']
    } else if s >= 60 {
        decimal(s / 60) + seq!['m']
    } else {
        decimal(s) + seq!['s']
    }
}

/// A duration in seconds, shortened to its largest unit: `5d`, `2h`, `30m`, `59s`.
pub fn format_duration_short(total_secs: i64) -> (r: String)
    ensures
        r@ == duration_short(total_secs as int),
{
    let secs: u64 = if total_secs > 0 {
        total_secs as u64
    } else {
        0
    };
    let mut r = String::new();
    if secs >= 86400 {
        push_decimal(&mut r, secs / 86400);
        push_char(&mut r, 'd');
    } else if secs >= 3600 {
        push_decimal(&mut r, secs / 3600);
        push_char(&mut r, 'h');
    } else if secs >= 60 {
        push_decimal(&mut r, secs / 60);
        push_char(&mut r, 'm');
    } else {
        push_decimal(&mut r, secs);
        push_char(&mut r, 's');
    }
    r
}

} // verus!
