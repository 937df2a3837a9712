use vstd::prelude::*;

verus! {

/// The character of a decimal digit.
pub open spec fn digit_char(d: nat) -> char {
    if d == 0 { '0' }
    else if d == 1 { '1' }
    else if d == 2 { '2' }
    else if d == 3 { '3' }
    else if d == 4 { '4' }
    else if d == 5 { '5' }
    else if d == 6 { '6' }
    else if d == 7 { '7' }
    else if d == 8 { '8' }
    else { '9' }
}

/// The decimal notation of a natural number, without leading zeros.
pub open spec fn decimal(n: nat) -> Seq<char>
    decreases n,
{
    if n < 10 {
        seq![digit_char(n)]
    } else {
        decimal(n / 10).push(digit_char(n % 10))
    }
}

/// `String::push`. Claimed: afterwards the string holds what it held
/// before, followed by `c`.
#[verifier::external_body]
pub(crate) fn push_char(s: &mut String, c: char)
    ensures
        final(s)@ == old(s)@.push(c),
{
    s.push(c);
}

pub(crate) fn digit_of(d: u64) -> (c: char)
    requires
        d < 10,
    ensures
        c == digit_char(d as nat),
{
    if d == 0 { '0' }
    else if d == 1 { '1' }
    else if d == 2 { '2' }
    else if d == 3 { '3' }
    else if d == 4 { '4' }
    else if d == 5 { '5' }
    else if d == 6 { '6' }
    else if d == 7 { '7' }
    else if d == 8 { '8' }
    else { '9' }
}

/// Whether `c` is one of the ten decimal digits.
pub open spec fn is_digit(c: char) -> bool {
    '0' <= c && c <= '9'
}

/// A decimal notation is made of digits only; it has one digit below ten and
/// at least two from ten on.
pub proof fn lemma_decimal_digits(n: nat)
    ensures
        1 <= decimal(n).len(),
        n < 10 <==> decimal(n).len() == 1,
        forall|i: int| 0 <= i < decimal(n).len() ==> is_digit(#[trigger] decimal(n)[i]),
    decreases n,
{
    if n >= 10 {
        lemma_decimal_digits(n / 10);
        let s = decimal(n);
        assert forall|i: int| 0 <= i < s.len() implies is_digit(#[trigger] s[i]) by {
            if i < s.len() - 1 {
                assert(s[i] == decimal(n / 10)[i]);
            }
        }
    }
}

/// Different numbers have different decimal notations.
pub proof fn lemma_decimal_injective(a: nat, b: nat)
    requires
        decimal(a) == decimal(b),
    ensures
        a == b,
    decreases a,
{
    lemma_decimal_digits(a);
    lemma_decimal_digits(b);
    if a >= 10 && b >= 10 {
        let s = decimal(a);
        assert(s.last() == digit_char(a % 10));
        assert(decimal(b).last() == digit_char(b % 10));
        assert(a % 10 == b % 10);
        assert(s.drop_last() =~= decimal(a / 10));
        assert(decimal(b).drop_last() =~= decimal(b / 10));
        lemma_decimal_injective(a / 10, b / 10);
    } else if a < 10 && b < 10 {
        assert(decimal(a)[0] == digit_char(a));
        assert(decimal(b)[0] == digit_char(b));
    }
}

/// Appends the decimal notation of `n`.
pub fn push_decimal(out: &mut String, n: u64)
    ensures
        final(out)@ == old(out)@ + decimal(n as nat),
    decreases n,
{
    if n < 10 {
        push_char(out, digit_of(n));
    } else {
        push_decimal(out, n / 10);
        push_char(out, digit_of(n % 10));
    }
}

/// Visible width of `s` on a terminal, reading it in the state `in_escape`:
/// an ESC character opens an escape sequence, which an `m` closes; the
/// characters of a sequence take no room, every other character one column.
pub open spec fn width_from(s: Seq<char>, in_escape: bool) -> nat
    decreases s.len(),
{
    if s.len() == 0 {
        0
    } else {
        let c = s[0];
        let rest = s.drop_first();
        if c == '\x1b' {
            width_from(rest, true)
        } else if in_escape {
            width_from(rest, c != 'm')
        } else {
            1 + width_from(rest, false)
        }
    }
}

/// Whether an escape sequence is still open after reading `s` from the state `in_escape`.
pub open spec fn escape_open_after(s: Seq<char>, in_escape: bool) -> bool
    decreases s.len(),
{
    if s.len() == 0 {
        in_escape
    } else {
        let c = s[0];
        let rest = s.drop_first();
        if c == '\x1b' {
            escape_open_after(rest, true)
        } else if in_escape {
            escape_open_after(rest, c != 'm')
        } else {
            escape_open_after(rest, false)
        }
    }
}

pub open spec fn visible_width(s: Seq<char>) -> nat {
    width_from(s, false)
}

/// `n` spaces.
pub open spec fn spaces(n: nat) -> Seq<char> {
    Seq::new(n, |i: int| ' ')
}

/// What `pad_cell(s, target)` returns: `s`, followed by spaces up to
/// `target` visible columns where it is narrower.
pub open spec fn padded(s: Seq<char>, target: nat) -> Seq<char> {
    let w = visible_width(s);
    if w < target {
        s + spaces((target - w) as nat)
    } else {
        s
    }
}

/// `format!("{:>w$}", s)`: `s` right-aligned in `w` characters.
pub open spec fn right_aligned(s: Seq<char>, w: nat) -> Seq<char> {
    if s.len() < w {
        spaces((w - s.len()) as nat) + s
    } else {
        s
    }
}

/// The visible width of two texts one after the other is the sum of their
/// widths, the second read in the escape state that the first leaves open.
pub proof fn lemma_width_concat(a: Seq<char>, b: Seq<char>, in_escape: bool)
    ensures
        width_from(a + b, in_escape) == width_from(a, in_escape) + width_from(
            b,
            escape_open_after(a, in_escape),
        ),
    decreases a.len(),
{
    if a.len() > 0 {
        let c = a[0];
        assert((a + b).drop_first() =~= a.drop_first() + b);
        assert((a + b)[0] == c);
        if c == '\x1b' {
            lemma_width_concat(a.drop_first(), b, true);
        } else if in_escape {
            lemma_width_concat(a.drop_first(), b, c != 'm');
        } else {
            lemma_width_concat(a.drop_first(), b, false);
        }
    } else {
        assert(a + b =~= b);
    }
}

proof fn lemma_width_spaces(n: nat)
    ensures
        width_from(spaces(n), false) == n,
    decreases n,
{
    if n > 0 {
        assert(spaces(n).drop_first() =~= spaces((n - 1) as nat));
        lemma_width_spaces((n - 1) as nat);
    }
}

/// Text without ESC characters is exactly as wide as it is long: every
/// character, whatever it is, takes one column.
pub proof fn lemma_plain_text_width(s: Seq<char>)
    requires
        forall|i: int| 0 <= i < s.len() ==> s[i] != '\x1b',
    ensures
        visible_width(s) == s.len(),
        !escape_open_after(s, false),
    decreases s.len(),
{
    if s.len() > 0 {
        let rest = s.drop_first();
        assert forall|i: int| 0 <= i < rest.len() implies rest[i] != '\x1b' by {
            assert(rest[i] == s[i + 1]);
        }
        lemma_plain_text_width(rest);
    }
}

/// Outside an escape sequence, one more character that is not ESC widens
/// the text by exactly one column.
pub proof fn lemma_width_push(s: Seq<char>, c: char)
    requires
        !escape_open_after(s, false),
        c != '\x1b',
    ensures
        visible_width(s.push(c)) == visible_width(s) + 1,
{
    let one = seq![c];
    lemma_width_concat(s, one, false);
    assert(s + one =~= s.push(c));
    assert(one[0] == c);
    assert(one.drop_first().len() == 0);
    assert(width_from(one.drop_first(), false) == 0);
    assert(width_from(one, false) == 1);
}

/// Inside an escape sequence, characters up to and including the closing
/// `m` take no room, and the sequence is closed after it.
proof fn lemma_escape_body(body: Seq<char>)
    requires
        forall|i: int| 0 <= i < body.len() ==> body[i] != 'm' && body[i] != '\x1b',
    ensures
        width_from(body + seq!['m'], true) == 0,
        !escape_open_after(body + seq!['m'], true),
    decreases body.len(),
{
    let t = body + seq!['m'];
    if body.len() == 0 {
        assert(t =~= seq!['m']);
        assert(t[0] == 'm');
        assert(t.drop_first() =~= Seq::<char>::empty());
        assert(width_from(t.drop_first(), false) == 0);
        assert(!escape_open_after(t.drop_first(), false));
        assert(width_from(t, true) == width_from(t.drop_first(), false));
        assert(escape_open_after(t, true) == escape_open_after(t.drop_first(), false));
    } else {
        let rest = body.drop_first();
        assert forall|i: int| 0 <= i < rest.len() implies rest[i] != 'm' && rest[i] != '\x1b' by {
            assert(rest[i] == body[i + 1]);
        }
        assert(t[0] == body[0]);
        assert(body[0] != 'm' && body[0] != '\x1b');
        assert(t.drop_first() =~= rest + seq!['m']);
        lemma_escape_body(rest);
        assert(width_from(t, true) == width_from(t.drop_first(), true));
        assert(escape_open_after(t, true) == escape_open_after(t.drop_first(), true));
    }
}

/// An escape sequence (ESC, then anything but `m` or ESC, then `m`) takes no
/// room on the terminal and leaves no sequence open after it.
pub proof fn lemma_escape_sequence_width(body: Seq<char>)
    requires
        forall|i: int| 0 <= i < body.len() ==> body[i] != 'm' && body[i] != '\x1b',
    ensures
        visible_width(seq!['\x1b'] + body + seq!['m']) == 0,
        !escape_open_after(seq!['\x1b'] + body + seq!['m'], false),
{
    let t = seq!['\x1b'] + body + seq!['m'];
    assert(t[0] == '\x1b');
    assert(t.drop_first() =~= body + seq!['m']);
    lemma_escape_body(body);
}

/// Text without ESC put between two escape sequences (a color, then a reset)
/// is exactly as wide as it is long: every one of its characters, whatever
/// it is, takes one column, and the colors take none.
pub proof fn lemma_colored_text_width(color: Seq<char>, s: Seq<char>, reset: Seq<char>)
    requires
        forall|i: int| 0 <= i < color.len() ==> color[i] != 'm' && color[i] != '\x1b',
        forall|i: int| 0 <= i < reset.len() ==> reset[i] != 'm' && reset[i] != '\x1b',
        forall|i: int| 0 <= i < s.len() ==> s[i] != '\x1b',
    ensures
        visible_width((seq!['\x1b'] + color + seq!['m']) + s + (seq!['\x1b'] + reset + seq!['m']))
            == s.len(),
{
    let a = seq!['\x1b'] + color + seq!['m'];
    let b = seq!['\x1b'] + reset + seq!['m'];
    lemma_escape_sequence_width(color);
    lemma_escape_sequence_width(reset);
    lemma_plain_text_width(s);
    lemma_width_concat(a, s, false);
    lemma_width_concat(a + s, b, false);
    lemma_escape_open_concat(a, s, false);
}

/// The escape state after two texts is that after the second, read from the
/// state the first leaves.
proof fn lemma_escape_open_concat(a: Seq<char>, b: Seq<char>, in_escape: bool)
    ensures
        escape_open_after(a + b, in_escape) == escape_open_after(
            b,
            escape_open_after(a, in_escape),
        ),
    decreases a.len(),
{
    if a.len() > 0 {
        let c = a[0];
        assert((a + b).drop_first() =~= a.drop_first() + b);
        assert((a + b)[0] == c);
        if c == '\x1b' {
            lemma_escape_open_concat(a.drop_first(), b, true);
        } else if in_escape {
            lemma_escape_open_concat(a.drop_first(), b, c != 'm');
        } else {
            lemma_escape_open_concat(a.drop_first(), b, false);
        }
    } else {
        assert(a + b =~= b);
    }
}

/// Padding keeps the text in front and never truncates; and where the text
/// does not end inside an escape sequence, it is exactly `target` columns
/// wide after padding, or as wide as before if it was already wider.
pub proof fn lemma_pad_width(s: Seq<char>, target: nat)
    ensures
        padded(s, target).subrange(0, s.len() as int) == s,
        !escape_open_after(s, false) ==> visible_width(padded(s, target)) == if visible_width(s)
            < target {
            target
        } else {
            visible_width(s)
        },
{
    let w = visible_width(s);
    if w < target {
        let pad = spaces((target - w) as nat);
        assert((s + pad).subrange(0, s.len() as int) =~= s);
        lemma_width_concat(s, pad, false);
        lemma_width_spaces((target - w) as nat);
    } else {
        assert(s.subrange(0, s.len() as int) =~= s);
    }
}

/// Visible width of a string: ANSI escape sequences (`ESC ... m`) take no room.
pub fn display_width(s: &str) -> (width: usize)
    ensures
        width == visible_width(s@),
{
    let n = s.unicode_len();
    let mut width: usize = 0;
    let mut in_escape = false;
    let mut i: usize = 0;
    assert(s@.subrange(0, n as int) =~= s@);
    while i < n
        invariant
            n == s@.len(),
            i <= n,
            width <= i,
            width + width_from(s@.subrange(i as int, n as int), in_escape) == visible_width(s@),
        decreases n - i,
    {
        let c = s.get_char(i);
        assert(s@.subrange(i as int, n as int).drop_first() =~= s@.subrange(i + 1, n as int));
        if c == '\x1b' {
            in_escape = true;
        } else if in_escape {
            if c == 'm' {
                in_escape = false;
            }
        } else {
            width = width + 1;
        }
        i = i + 1;
    }
    assert(s@.subrange(n as int, n as int) =~= Seq::<char>::empty());
    width
}

/// Appends `n` spaces.
pub fn push_spaces(out: &mut String, n: usize)
    ensures
        final(out)@ == old(out)@ + spaces(n as nat),
{
    let mut i: usize = 0;
    while i < n
        invariant
            i <= n,
            out@ == old(out)@ + spaces(i as nat),
        decreases n - i,
    {
        push_char(out, ' ');
        i = i + 1;
        assert(out@ =~= old(out)@ + spaces(i as nat));
    }
}

/// Pads `s` with trailing spaces to `target` visible columns; never truncates.
pub fn pad_cell(s: &str, target: usize) -> (r: String)
    ensures
        r@ == padded(s@, target as nat),
{
    let current = display_width(s);
    let mut r = String::new();
    r.append(s);
    if current < target {
        push_spaces(&mut r, target - current);
    }
    r
}

/// Appends `s` right-aligned in `w` characters.
pub fn push_right_aligned(out: &mut String, s: &str, w: usize)
    ensures
        final(out)@ == old(out)@ + right_aligned(s@, w as nat),
{
    let len = s.unicode_len();
    if len < w {
        push_spaces(out, w - len);
    }
    out.append(s);
    assert(final(out)@ =~= old(out)@ + right_aligned(s@, w as nat));
}

/// `char::is_whitespace`: the characters with the Unicode White_Space property.
pub open spec fn is_white_space(c: char) -> bool {
    ('\t' <= c && c <= '\r') || c == ' ' || c == '\u{85}' || c == '\u{a0}' || c == '\u{1680}' || (
    '\u{2000}' <= c && c <= '\u{200a}') || c == '\u{2028}' || c == '\u{2029}' || c == '\u{202f}'
        || c == '\u{205f}' || c == '\u{3000}'
}

/// `str::trim_end`: `s` without its trailing white space.
pub open spec fn trim_end(s: Seq<char>) -> Seq<char>
    decreases s.len(),
{
    if s.len() > 0 && is_white_space(s.last()) {
        trim_end(s.drop_last())
    } else {
        s
    }
}

/// `str::trim_start`: `s` without its leading white space.
pub open spec fn trim_start(s: Seq<char>) -> Seq<char>
    decreases s.len(),
{
    if s.len() > 0 && is_white_space(s[0]) {
        trim_start(s.drop_first())
    } else {
        s
    }
}

/// `str::trim`
pub open spec fn trim(s: Seq<char>) -> Seq<char> {
    trim_start(trim_end(s))
}

pub fn is_white_space_exec(c: char) -> (b: bool)
    ensures
        b == is_white_space(c),
{
    ('\t' <= c && c <= '\r') || c == ' ' || c == '\u{85}' || c == '\u{a0}' || c == '\u{1680}' || (
    '\u{2000}' <= c && c <= '\u{200a}') || c == '\u{2028}' || c == '\u{2029}' || c == '\u{202f}'
        || c == '\u{205f}' || c == '\u{3000}'
}

/// The number of characters that `trim_end` keeps.
fn trimmed_end(s: &str) -> (j: usize)
    ensures
        j <= s@.len(),
        s@.subrange(0, j as int) == trim_end(s@),
{
    let n = s.unicode_len();
    let mut j = n;
    assert(s@.subrange(0, n as int) =~= s@);
    while j > 0 && is_white_space_exec(s.get_char(j - 1))
        invariant
            n == s@.len(),
            j <= n,
            trim_end(s@.subrange(0, j as int)) == trim_end(s@),
        decreases j,
    {
        assert(s@.subrange(0, j as int).drop_last() =~= s@.subrange(0, j - 1));
        j = j - 1;
    }
    j
}

/// `s.trim_end()`
pub fn trim_end_exec(s: &str) -> (r: String)
    ensures
        r@ == trim_end(s@),
{
    let j = trimmed_end(s);
    s.substring_char(0, j).to_owned()
}

/// `s.trim()`
pub fn trim_exec(s: &str) -> (r: String)
    ensures
        r@ == trim(s@),
{
    let j = trimmed_end(s);
    let ghost t = s@.subrange(0, j as int);
    let mut i: usize = 0;
    assert(t.subrange(0, j as int) =~= t);
    while i < j && is_white_space_exec(s.get_char(i))
        invariant
            j <= s@.len(),
            t == s@.subrange(0, j as int),
            i <= j,
            trim_start(s@.subrange(i as int, j as int)) == trim_start(t),
        decreases j - i,
    {
        assert(s@.subrange(i as int, j as int).drop_first() =~= s@.subrange(i + 1, j as int));
        i = i + 1;
    }
    assert(s@.subrange(0, j as int).subrange(i as int, j as int) =~= s@.subrange(i as int, j as int));
    s.substring_char(i, j).to_owned()
}

} // verus!
