use vstd::prelude::*;
use crate::text::{
    decimal, is_digit, lemma_decimal_digits, lemma_decimal_injective, push_char, push_decimal, trim,
    trim_exec,
};

verus! {

/// The milliseconds since the Unix epoch of the RFC 3339 date-time `text`,
/// as chrono reads it; `None` where it does not parse.
pub uninterp spec fn rfc3339_millis(text: Seq<char>) -> Option<i64>;

/// `chrono::DateTime::parse_from_rfc3339(text)`, then `timestamp_millis()`
/// of the parsed date-time. Claimed: the result is a function of `text`
/// alone (`rfc3339_millis`); nothing is said of which texts parse.
#[verifier::external_body]
fn parse_rfc3339_millis(text: &str) -> (r: Option<i64>)
    ensures
        r == rfc3339_millis(text@),
{
    match chrono::DateTime::parse_from_rfc3339(text) {
        Ok(date_time) => Some(date_time.timestamp_millis()),
        Err(_) => None,
    }
}

/// The `timestamp` field of a transcript record, by its JSON type.
pub enum TimestampValue {
    /// A JSON string.
    Text(String),
    /// A JSON number that is an `i64`.
    Integer(i64),
    /// Any other JSON value.
    Other,
}

/// The `timestamp` field of the JSON value written on a transcript line, as
/// serde_json reads it; `None` where the line is no JSON value or has no
/// such field.
pub uninterp spec fn line_timestamp(line: Seq<char>) -> Option<TimestampValue>;

/// `serde_json::from_str::<Value>(line)`, then `get("timestamp")` on the
/// parsed value, told apart by JSON type (`as_i64` for a number). Claimed:
/// the result is a function of `line` alone (`line_timestamp`); nothing is
/// said of which lines parse or what they hold.
#[verifier::external_body]
fn read_line_timestamp(line: &str) -> (r: Option<TimestampValue>)
    ensures
        r == line_timestamp(line@),
{
    match serde_json::from_str::<serde_json::Value>(line) {
        Ok(json) => match json.get("timestamp") {
            Some(serde_json::Value::String(text)) => Some(TimestampValue::Text(text.clone())),
            Some(value) => match value.as_i64() {
                Some(i) => Some(TimestampValue::Integer(i)),
                None => Some(TimestampValue::Other),
            },
            None => None,
        },
        Err(_) => None,
    }
}

/// What `parse_timestamp` reads from a timestamp: milliseconds from an
/// RFC 3339 string, or the integer itself.
pub open spec fn timestamp_of(v: TimestampValue) -> Option<i64> {
    match v {
        TimestampValue::Text(s) => rfc3339_millis(s@),
        TimestampValue::Integer(i) => Some(i),
        TimestampValue::Other => None,
    }
}

/// A timestamp in milliseconds: an RFC 3339 string, or an integer.
pub fn parse_timestamp(timestamp: &TimestampValue) -> (r: Option<i64>)
    ensures
        r == timestamp_of(*timestamp),
{
    match timestamp {
        TimestampValue::Text(s) => parse_rfc3339_millis(s.as_str()),
        TimestampValue::Integer(i) => Some(*i),
        TimestampValue::Other => None,
    }
}

pub open spec fn is_blank(line: String) -> bool {
    trim(line@).len() == 0
}

/// The lines that hold more than white space, in order.
pub open spec fn nonblank(lines: Seq<String>) -> Seq<String>
    decreases lines.len(),
{
    if lines.len() == 0 {
        Seq::empty()
    } else {
        let rest = nonblank(lines.drop_last());
        if is_blank(lines.last()) {
            rest
        } else {
            rest.push(lines.last())
        }
    }
}

/// The reading of the first timestamp among `lines`, if any line has one.
pub open spec fn first_stamp(lines: Seq<String>) -> Option<Option<i64>>
    decreases lines.len(),
{
    if lines.len() == 0 {
        None
    } else {
        match line_timestamp(lines[0]@) {
            Some(v) => Some(timestamp_of(v)),
            None => first_stamp(lines.drop_first()),
        }
    }
}

/// The reading of the last timestamp among `lines`, if any line has one.
pub open spec fn last_stamp(lines: Seq<String>) -> Option<Option<i64>>
    decreases lines.len(),
{
    if lines.len() == 0 {
        None
    } else {
        match line_timestamp(lines.last()@) {
            Some(v) => Some(timestamp_of(v)),
            None => last_stamp(lines.drop_last()),
        }
    }
}
/// A span of `d` milliseconds: `2h5m`, `12m`, or `<1m`.
pub open spec fn span_text(d: int) -> Seq<char> {
    if d <= 0 {
        seq!['<', '1', 'm']
    } else {
        let hours = d / 3_600_000;
        let minutes = (d % 3_600_000) / 60_000;
        if hours > 0 {
            decimal(hours as nat) + seq!['h'] + decimal(minutes as nat) + seq!['m']
        } else if minutes > 0 {
            decimal(minutes as nat) + seq!['m']
        } else {
            seq!['<', '1', 'm']
        }
    }
}

/// A span reads back as the time it shows: from an hour on, `<h>h<m>m` with
/// `h` the whole hours (without any wrap to days) and `m < 60` the minutes
/// left, so that `h` hours and `m` minutes lie within a minute below the
/// span; from a minute on, `<m>m` with `m` the whole minutes; below a
/// minute, `<1m`.
pub proof fn lemma_span_reads_back(d: int)
    ensures
        d >= 3_600_000 ==> exists|h: nat, m: nat|
            span_text(d) == decimal(h) + seq!['h'] + decimal(m) + seq!['m'] && 1 <= h && m < 60
                && h * 3_600_000 + m * 60_000 <= d < h * 3_600_000 + (m + 1) * 60_000,
        60_000 <= d < 3_600_000 ==> exists|m: nat|
            span_text(d) == decimal(m) + seq!['m'] && 1 <= m < 60 && m * 60_000 <= d < (m + 1)
                * 60_000,
        d < 60_000 ==> span_text(d) == seq!['<', '1', 'm'],
{
    if d >= 3_600_000 {
        let h = (d / 3_600_000) as nat;
        let m = ((d % 3_600_000) / 60_000) as nat;
        assert(h * 3_600_000 + m * 60_000 <= d < h * 3_600_000 + (m + 1) * 60_000 && 1 <= h
            && m < 60);
        assert(span_text(d) == decimal(h) + seq!['h'] + decimal(m) + seq!['m']);
    } else if d >= 60_000 {
        let m = ((d % 3_600_000) / 60_000) as nat;
        assert(d / 3_600_000 == 0);
        assert(d % 3_600_000 == d);
        assert(1 <= m < 60 && m * 60_000 <= d < (m + 1) * 60_000);
        assert(span_text(d) == decimal(m) + seq!['m']);
    } else if d > 0 {
        assert(d / 3_600_000 == 0);
        assert(d % 3_600_000 == d);
        assert((d % 3_600_000) / 60_000 == 0);
    }
}

/// Spans in different whole hours read differently: the hour count is the
/// span's own, and never wraps.
pub proof fn lemma_span_hours_differ(d1: int, d2: int)
    requires
        d1 >= 3_600_000,
        d2 >= 3_600_000,
        d1 / 3_600_000 != d2 / 3_600_000,
    ensures
        span_text(d1) != span_text(d2),
{
    let h1 = (d1 / 3_600_000) as nat;
    let h2 = (d2 / 3_600_000) as nat;
    let m1 = ((d1 % 3_600_000) / 60_000) as nat;
    let m2 = ((d2 % 3_600_000) / 60_000) as nat;
    let s1 = span_text(d1);
    let s2 = span_text(d2);
    assert(s1 == decimal(h1) + seq!['h'] + decimal(m1) + seq!['m']);
    assert(s2 == decimal(h2) + seq!['h'] + decimal(m2) + seq!['m']);
    lemma_decimal_digits(h1);
    lemma_decimal_digits(h2);
    let l1 = decimal(h1).len() as int;
    let l2 = decimal(h2).len() as int;
    if s1 == s2 {
        assert(s1[l1] == 'h');
        assert(s2[l2] == 'h');
        if l1 < l2 {
            assert(s2[l1] == decimal(h2)[l1]);
            assert(is_digit(decimal(h2)[l1]));
            assert(false);
        } else if l2 < l1 {
            assert(s1[l2] == decimal(h1)[l2]);
            assert(is_digit(decimal(h1)[l2]));
            assert(false);
        } else {
            assert(s1.subrange(0, l1) =~= decimal(h1));
            assert(s2.subrange(0, l2) =~= decimal(h2));
            lemma_decimal_injective(h1, h2);
        }
    }
}

/// A session a day longer than another reads otherwise: the hours do not
/// stop at a day.
pub proof fn lemma_span_day_longer(d: int)
    requires
        d > 0,
    ensures
        span_text(d + 86_400_000) != span_text(d),
{
    let e = d + 86_400_000;
    if d >= 3_600_000 {
        assert(e / 3_600_000 == d / 3_600_000 + 24);
        lemma_span_hours_differ(d, e);
    } else {
        let h = (e / 3_600_000) as nat;
        let m = ((e % 3_600_000) / 60_000) as nat;
        let s2 = span_text(e);
        assert(s2 == decimal(h) + seq!['h'] + decimal(m) + seq!['m']);
        lemma_decimal_digits(h);
        let l = decimal(h).len() as int;
        assert(s2[l] == 'h');
        let s1 = span_text(d);
        assert(d / 3_600_000 == 0);
        let m1 = ((d % 3_600_000) / 60_000) as nat;
        if m1 > 0 {
            assert(s1 == decimal(m1) + seq!['m']);
            lemma_decimal_digits(m1);
            if s1 == s2 {
                if l < decimal(m1).len() {
                    assert(s1[l] == decimal(m1)[l]);
                    assert(is_digit(decimal(m1)[l]));
                }
                assert(false);
            }
        } else {
            assert(s1 == seq!['<', '1', 'm']);
            if s1 == s2 {
                assert(s1[l] == 'h');
                assert(false);
            }
        }
    }
}

/// What `get_session_duration(lines)` returns: nothing for fewer than two
/// non-blank lines, for no timestamp, or for a first or last timestamp that
/// does not read; else the span from the first to the last timestamp. Where
/// that span does not fit an `i64`, nothing either.
pub open spec fn session_duration(lines: Seq<String>) -> Option<Seq<char>> {
    let ls = nonblank(lines);
    if ls.len() < 2 {
        None
    } else {
        match (first_stamp(ls), last_stamp(ls)) {
            (Some(Some(first)), Some(Some(last))) => {
                let d = last - first;
                if i64::MIN <= d <= i64::MAX {
                    Some(span_text(d))
                } else {
                    None
                }
            },
            _ => None,
        }
    }
}

/// The span from `first_ms` to `last_ms` in hours and minutes.
pub fn format_session_span(first_ms: i64, last_ms: i64) -> (r: String)
    requires
        i64::MIN <= last_ms - first_ms <= i64::MAX,
    ensures
        r@ == span_text(last_ms - first_ms),
{
    let d: i64 = last_ms - first_ms;
    let mut r = String::new();
    if d <= 0 {
        push_char(&mut r, '<');
        push_char(&mut r, '1');
        push_char(&mut r, 'm');
        return r;
    }
    let du = d as u64;
    let hours = du / 3_600_000;
    let minutes = (du % 3_600_000) / 60_000;
    if hours > 0 {
        push_decimal(&mut r, hours);
        push_char(&mut r, 'h');
        push_decimal(&mut r, minutes);
        push_char(&mut r, 'm');
    } else if minutes > 0 {
        push_decimal(&mut r, minutes);
        push_char(&mut r, 'm');
    } else {
        push_char(&mut r, '<');
        push_char(&mut r, '1');
        push_char(&mut r, 'm');
    }
    r
}

/// The lines at the given positions.
pub open spec fn picked(lines: Seq<String>, at: Seq<usize>) -> Seq<String> {
    Seq::new(at.len(), |j: int| lines[at[j] as int])
}

/// The length of a session: the span between the first and the last
/// timestamp of its transcript, given as its lines (JSON lines).
pub fn get_session_duration(lines: &Vec<String>) -> (r: Option<String>)
    ensures
        match r {
            Some(s) => session_duration(lines@) == Some(s@),
            None => session_duration(lines@) is None,
        },
{
    let n = lines.len();
    let mut kept: Vec<usize> = Vec::new();
    let mut i: usize = 0;
    assert(lines@.subrange(0, 0) =~= Seq::<String>::empty());
    assert(picked(lines@, kept@) =~= Seq::<String>::empty());
    while i < n
        invariant
            n == lines.len(),
            i <= n,
            forall|j: int| 0 <= j < kept.len() ==> kept@[j] < i,
            picked(lines@, kept@) == nonblank(lines@.subrange(0, i as int)),
        decreases n - i,
    {
        let ghost before = kept@;
        assert(lines@.subrange(0, i + 1).drop_last() =~= lines@.subrange(0, i as int));
        assert(lines@.subrange(0, i + 1).last() == lines@[i as int]);
        let t = trim_exec(lines[i].as_str());
        if !t.as_str().is_empty() {
            kept.push(i);
            assert(picked(lines@, kept@) =~= picked(lines@, before).push(lines@[i as int]));
        }
        i = i + 1;
    }
    assert(lines@.subrange(0, n as int) =~= lines@);
    let ghost ls = picked(lines@, kept@);
    let count = kept.len();
    if count < 2 {
        return None;
    }
    // first timestamp
    let mut j: usize = 0;
    let mut first: Option<i64> = None;
    let mut found = false;
    assert(ls.subrange(0, count as int) =~= ls);
    while !found && j < count
        invariant
            count == kept.len(),
            ls == picked(lines@, kept@),
            forall|k: int| 0 <= k < kept.len() ==> kept@[k] < lines.len(),
            j <= count,
            !found ==> first_stamp(ls) == first_stamp(ls.subrange(j as int, count as int)),
            found ==> first_stamp(ls) == Some(first),
        decreases count - j + (if found { 0int } else { 1int }),
    {
        let stamp = read_line_timestamp(lines[kept[j]].as_str());
        assert(ls.subrange(j as int, count as int).drop_first() =~= ls.subrange(j + 1, count as int));
        assert(ls.subrange(j as int, count as int)[0] == ls[j as int]);
        assert(ls[j as int] == lines@[kept@[j as int] as int]);
        match &stamp {
            Some(v) => {
                first = parse_timestamp(v);
                found = true;
            },
            None => {
                j = j + 1;
            },
        }
    }
    if !found {
        assert(ls.subrange(count as int, count as int).len() == 0);
        return None;
    }
    let first_ms = match first {
        Some(f) => f,
        None => {
            return None;
        },
    };
    // last timestamp
    let mut j: usize = count;
    let mut last: Option<i64> = None;
    let mut found_last = false;
    while !found_last && j > 0
        invariant
            count == kept.len(),
            ls == picked(lines@, kept@),
            forall|k: int| 0 <= k < kept.len() ==> kept@[k] < lines.len(),
            j <= count,
            !found_last ==> last_stamp(ls) == last_stamp(ls.subrange(0, j as int)),
            found_last ==> last_stamp(ls) == Some(last),
        decreases j + (if found_last { 0int } else { 1int }),
    {
        let stamp = read_line_timestamp(lines[kept[j - 1]].as_str());
        assert(ls.subrange(0, j as int).drop_last() =~= ls.subrange(0, j - 1));
        assert(ls.subrange(0, j as int).last() == ls[j - 1]);
        assert(ls[j - 1] == lines@[kept@[j - 1] as int]);
        match &stamp {
            Some(v) => {
                last = parse_timestamp(v);
                found_last = true;
            },
            None => {
                j = j - 1;
            },
        }
    }
    if !found_last {
        assert(ls.subrange(0, 0).len() == 0);
        return None;
    }
    let last_ms = match last {
        Some(l) => l,
        None => {
            return None;
        },
    };
    match last_ms.checked_sub(first_ms) {
        Some(_) => Some(format_session_span(first_ms, last_ms)),
        None => None,
    }
}

} // verus!
