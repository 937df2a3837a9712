use vstd::prelude::*;
use crate::text::push_char;

verus! {

/// `s` begins with `p`.
pub open spec fn starts_with(s: Seq<char>, p: Seq<char>) -> bool {
    p.len() <= s.len() && s.subrange(0, p.len() as int) == p
}

/// `str::replace(s, pat, rep)`: every match of `pat`, taken from the left
/// without overlap, replaced by `rep`. An empty `pat` matches before every
/// character and at the end.
pub open spec fn replace_all(s: Seq<char>, pat: Seq<char>, rep: Seq<char>) -> Seq<char>
    decreases s.len(),
{
    if pat.len() == 0 {
        if s.len() == 0 {
            rep
        } else {
            rep + seq![s[0]] + replace_all(s.drop_first(), pat, rep)
        }
    } else if s.len() == 0 {
        Seq::empty()
    } else if starts_with(s, pat) {
        rep + replace_all(s.subrange(pat.len() as int, s.len() as int), pat, rep)
    } else {
        seq![s[0]] + replace_all(s.drop_first(), pat, rep)
    }
}

/// `str::split(s, sep)`: the pieces between the separators, empty ones included.
pub open spec fn split_on(s: Seq<char>, sep: char) -> Seq<Seq<char>>
    decreases s.len(),
{
    if s.len() == 0 {
        seq![Seq::empty()]
    } else {
        let parts = split_on(s.drop_last(), sep);
        if s.last() == sep {
            parts.push(Seq::empty())
        } else {
            parts.update(parts.len() - 1, parts.last().push(s.last()))
        }
    }
}

/// The pieces joined, with `sep` between neighbours.
pub open spec fn join_with(parts: Seq<Seq<char>>, sep: Seq<char>) -> Seq<char>
    decreases parts.len(),
{
    if parts.len() == 0 {
        Seq::empty()
    } else if parts.len() == 1 {
        parts[0]
    } else {
        join_with(parts.drop_last(), sep) + sep + parts.last()
    }
}

/// Every piece followed by `sep`.
pub open spec fn each_followed_by(parts: Seq<Seq<char>>, sep: Seq<char>) -> Seq<char>
    decreases parts.len(),
{
    if parts.len() == 0 {
        Seq::empty()
    } else {
        each_followed_by(parts.drop_last(), sep) + parts.last() + sep
    }
}

/// A path component as the fish shell abbreviates it: the last component,
/// an empty one and `~` stay whole; a hidden one keeps its dot and the next
/// character; any other keeps its first character. (A component that starts
/// with `.` and has more than one byte has more than one character.)
pub open spec fn shorten_component(part: Seq<char>, is_last: bool) -> Seq<char> {
    if is_last || part.len() == 0 || part == seq!['~'] {
        part
    } else if part[0] == '.' && part.len() > 1 {
        seq!['.', part[1]]
    } else {
        seq![part[0]]
    }
}

pub open spec fn shortened_components(parts: Seq<Seq<char>>) -> Seq<Seq<char>> {
    Seq::new(parts.len(), |i: int| shorten_component(parts[i], i == parts.len() - 1))
}

/// What `fish_shorten_path(path, home)` returns: `home` replaced by `~`
/// everywhere in `path`, then every component but the last abbreviated.
pub open spec fn fish_shortened(path: Seq<char>, home: Seq<char>) -> Seq<char> {
    let p = replace_all(path, home, seq!['~']);
    let parts = split_on(p, '/');
    if parts.len() <= 1 {
        p
    } else {
        join_with(shortened_components(parts), seq!['/'])
    }
}

pub proof fn lemma_split_nonempty(s: Seq<char>, sep: char)
    ensures
        split_on(s, sep).len() >= 1,
    decreases s.len(),
{
    if s.len() > 0 {
        lemma_split_nonempty(s.drop_last(), sep);
    }
}

proof fn lemma_join_followed(parts: Seq<Seq<char>>, sep: Seq<char>)
    requires
        parts.len() >= 1,
    ensures
        join_with(parts, sep) + sep == each_followed_by(parts, sep),
    decreases parts.len(),
{
    if parts.len() == 1 {
        assert(parts.drop_last().len() == 0);
        assert(each_followed_by(parts.drop_last(), sep) == Seq::<char>::empty());
        assert(each_followed_by(parts, sep) =~= parts[0] + sep);
    } else {
        lemma_join_followed(parts.drop_last(), sep);
        assert(join_with(parts, sep) + sep =~= (join_with(parts.drop_last(), sep) + sep) + parts.last() + sep);
    }
}

proof fn lemma_join_last(parts: Seq<Seq<char>>, x: Seq<char>, sep: Seq<char>)
    ensures
        join_with(parts.push(x), sep) == each_followed_by(parts, sep) + x,
{
    let all = parts.push(x);
    assert(all.drop_last() =~= parts);
    if parts.len() == 0 {
        assert(each_followed_by(parts, sep) + x =~= x);
    } else {
        lemma_join_followed(parts, sep);
        assert(join_with(all, sep) =~= join_with(parts, sep) + sep + x);
    }
}

proof fn lemma_split_single(s: Seq<char>, sep: char)
    requires
        split_on(s, sep).len() <= 1,
    ensures
        split_on(s, sep) == seq![s],
    decreases s.len(),
{
    lemma_split_nonempty(s, sep);
    if s.len() > 0 {
        lemma_split_nonempty(s.drop_last(), sep);
        if s.last() == sep {
            assert(split_on(s, sep).len() == split_on(s.drop_last(), sep).len() + 1);
        } else {
            lemma_split_single(s.drop_last(), sep);
            assert(s.drop_last().push(s.last()) =~= s);
        }
    } else {
        assert(s =~= Seq::<char>::empty());
    }
}

/// Shortening keeps the last component of the path whole: the result ends
/// with the text after the last `/` of the path (once `home` is replaced).
pub proof fn lemma_last_component_kept(path: Seq<char>, home: Seq<char>)
    ensures
        ({
            let r = fish_shortened(path, home);
            let last = split_on(replace_all(path, home, seq!['~']), '/').last();
            last.len() <= r.len() && r.subrange(r.len() - last.len(), r.len() as int) == last
        }),
{
    let p = replace_all(path, home, seq!['~']);
    let parts = split_on(p, '/');
    lemma_split_nonempty(p, '/');
    let r = fish_shortened(path, home);
    if parts.len() <= 1 {
        lemma_split_single(p, '/');
        assert(r.subrange(0, r.len() as int) =~= r);
    } else {
        assert(shortened_components(parts) =~= abbreviated(parts.drop_last()).push(parts.last()));
        lemma_join_last(abbreviated(parts.drop_last()), parts.last(), seq!['/']);
        let front = each_followed_by(abbreviated(parts.drop_last()), seq!['/']);
        assert(r == front + parts.last());
        assert(r.subrange(r.len() - parts.last().len(), r.len() as int) =~= parts.last());
    }
}

/// `pat` occurs somewhere in `s`.
pub open spec fn occurs_in(s: Seq<char>, pat: Seq<char>) -> bool {
    exists|i: int| 0 <= i <= s.len() && #[trigger] starts_with(s.subrange(i, s.len() as int), pat)
}

/// `s` holds no `c`.
pub open spec fn free_of(s: Seq<char>, c: char) -> bool {
    forall|i: int| 0 <= i < s.len() ==> s[i] != c
}

proof fn lemma_replace_absent(s: Seq<char>, pat: Seq<char>, rep: Seq<char>)
    requires
        pat.len() > 0,
        !occurs_in(s, pat),
    ensures
        replace_all(s, pat, rep) == s,
    decreases s.len(),
{
    if s.len() > 0 {
        assert(s.subrange(0, s.len() as int) =~= s);
        assert(!starts_with(s.subrange(0, s.len() as int), pat));
        let t = s.drop_first();
        assert forall|i: int| 0 <= i <= t.len() implies !starts_with(
            #[trigger] t.subrange(i, t.len() as int),
            pat,
        ) by {
            assert(t.subrange(i, t.len() as int) =~= s.subrange(i + 1, s.len() as int));
            assert(!starts_with(s.subrange(i + 1, s.len() as int), pat));
        }
        lemma_replace_absent(t, pat, rep);
        assert(seq![s[0]] + t =~= s);
    }
}

proof fn lemma_split_append_free(x: Seq<char>, b: Seq<char>, sep: char)
    requires
        free_of(b, sep),
    ensures
        split_on(x + b, sep) == split_on(x, sep).update(
            split_on(x, sep).len() - 1,
            split_on(x, sep).last() + b,
        ),
    decreases b.len(),
{
    lemma_split_nonempty(x, sep);
    let t = split_on(x, sep);
    if b.len() == 0 {
        assert(x + b =~= x);
        assert(t.last() + b =~= t.last());
        assert(t.update(t.len() - 1, t.last() + b) =~= t);
    } else {
        let b1 = b.drop_last();
        lemma_split_append_free(x, b1, sep);
        assert((x + b).drop_last() =~= x + b1);
        assert((x + b).last() == b.last());
        assert(b.last() != sep);
        let u = split_on(x + b1, sep);
        assert(u.len() == t.len());
        assert(u.last() == t.last() + b1);
        assert(u.last().push(b.last()) =~= t.last() + b);
        assert(u.update(u.len() - 1, u.last().push(b.last())) =~= t.update(
            t.len() - 1,
            t.last() + b,
        ));
    }
}

proof fn lemma_split_free(s: Seq<char>, sep: char)
    ensures
        forall|i: int|
            0 <= i < split_on(s, sep).len() ==> free_of(#[trigger] split_on(s, sep)[i], sep),
    decreases s.len(),
{
    if s.len() > 0 {
        lemma_split_free(s.drop_last(), sep);
        lemma_split_nonempty(s.drop_last(), sep);
        let t = split_on(s.drop_last(), sep);
        let r = split_on(s, sep);
        assert forall|i: int| 0 <= i < r.len() implies free_of(#[trigger] r[i], sep) by {
            if s.last() == sep {
                if i < t.len() {
                    assert(r[i] == t[i]);
                } else {
                    assert(r[i] == Seq::<char>::empty());
                }
            } else {
                if i < t.len() - 1 {
                    assert(r[i] == t[i]);
                } else {
                    assert(r[i] == t.last().push(s.last()));
                    assert(free_of(t[t.len() - 1], sep));
                }
            }
        }
    }
}

proof fn lemma_split_join(comps: Seq<Seq<char>>, sep: char)
    requires
        comps.len() >= 1,
        forall|i: int| 0 <= i < comps.len() ==> free_of(#[trigger] comps[i], sep),
    ensures
        split_on(join_with(comps, seq![sep]), sep) == comps,
    decreases comps.len(),
{
    if comps.len() == 1 {
        let e = Seq::<char>::empty();
        lemma_split_append_free(e, comps[0], sep);
        assert(e + comps[0] =~= comps[0]);
        assert(split_on(e, sep) == seq![e]);
        assert(seq![e].update(0, e + comps[0]) =~= comps);
    } else {
        let dl = comps.drop_last();
        lemma_split_join(dl, sep);
        let a = join_with(dl, seq![sep]);
        let with_sep = a + seq![sep];
        assert(with_sep.drop_last() =~= a);
        assert(with_sep.last() == sep);
        assert(split_on(with_sep, sep) == dl.push(Seq::<char>::empty()));
        lemma_split_append_free(with_sep, comps.last(), sep);
        assert(join_with(comps, seq![sep]) == with_sep + comps.last());
        assert(dl.push(Seq::<char>::empty()).update(
            dl.len() as int,
            Seq::<char>::empty() + comps.last(),
        ) =~= comps);
    }
}

proof fn lemma_shorten_again(part: Seq<char>)
    requires
        free_of(part, '/'),
    ensures
        shorten_component(shorten_component(part, false), false) == shorten_component(
            part,
            false,
        ),
        free_of(shorten_component(part, false), '/'),
{
    let once = shorten_component(part, false);
    if part.len() == 0 || part == seq!['~'] {
    } else if part[0] == '.' && part.len() > 1 {
        assert(once == seq!['.', part[1]]);
        assert(once != seq!['~']) by {
            assert(once.len() != seq!['~'].len());
        }
    } else {
        assert(once == seq![part[0]]);
        if part[0] == '~' {
            assert(once =~= seq!['~']);
        }
    }
}

/// Shortening is idempotent: shortening the shortened path again changes
/// nothing, as long as the home directory is not empty and does not occur
/// in the shortened path.
pub proof fn lemma_shorten_idempotent(path: Seq<char>, home: Seq<char>)
    requires
        home.len() > 0,
        !occurs_in(fish_shortened(path, home), home),
    ensures
        fish_shortened(fish_shortened(path, home), home) == fish_shortened(path, home),
{
    let r = fish_shortened(path, home);
    lemma_replace_absent(r, home, seq!['~']);
    let p = replace_all(path, home, seq!['~']);
    let parts = split_on(p, '/');
    lemma_split_nonempty(p, '/');
    if parts.len() > 1 {
        let sc = shortened_components(parts);
        lemma_split_free(p, '/');
        assert forall|i: int| 0 <= i < sc.len() implies free_of(#[trigger] sc[i], '/') by {
            assert(free_of(parts[i], '/'));
            if i < sc.len() - 1 {
                lemma_shorten_again(parts[i]);
            }
        }
        lemma_split_join(sc, '/');
        assert(split_on(r, '/') == sc);
        assert forall|i: int| 0 <= i < sc.len() implies #[trigger] shortened_components(sc)[i]
            == sc[i] by {
            if i < sc.len() - 1 {
                lemma_shorten_again(parts[i]);
            }
        }
        assert(shortened_components(sc) =~= sc);
    }
}

/// Copies the characters of `s` into a vector.
fn chars_of(s: &str) -> (v: Vec<char>)
    ensures
        v@ == s@,
{
    let n = s.unicode_len();
    let mut v: Vec<char> = Vec::new();
    let mut i: usize = 0;
    while i < n
        invariant
            n == s@.len(),
            i <= n,
            v@ == s@.subrange(0, i as int),
        decreases n - i,
    {
        v.push(s.get_char(i));
        i = i + 1;
        assert(v@ =~= s@.subrange(0, i as int));
    }
    assert(s@.subrange(0, n as int) =~= s@);
    v
}

/// Whether `pat` occurs in `s` at position `i`.
fn matches_at(s: &Vec<char>, pat: &Vec<char>, i: usize) -> (b: bool)
    requires
        i <= s.len(),
    ensures
        b == starts_with(s@.subrange(i as int, s.len() as int), pat@),
{
    let n = s.len();
    let m = pat.len();
    if m > n - i {
        return false;
    }
    let mut j: usize = 0;
    while j < m
        invariant
            i + m <= n,
            n == s.len(),
            m == pat.len(),
            j <= m,
            forall|t: int| 0 <= t < j ==> s@[i + t] == pat@[t],
        decreases m - j,
    {
        if s[i + j] != pat[j] {
            assert(s@.subrange(i as int, n as int).subrange(0, m as int)[j as int] != pat@[j as int]);
            return false;
        }
        j = j + 1;
    }
    assert(s@.subrange(i as int, n as int).subrange(0, m as int) =~= pat@);
    true
}

/// Appends `replace_all(s, pat, rep)`.
fn push_replaced(out: &mut String, s: &Vec<char>, pat: &Vec<char>, rep: &str)
    ensures
        final(out)@ == old(out)@ + replace_all(s@, pat@, rep@),
{
    let n = s.len();
    let mut i: usize = 0;
    assert(s@.subrange(0, n as int) =~= s@);
    if pat.len() == 0 {
        while i < n
            invariant
                n == s.len(),
                pat@.len() == 0,
                i <= n,
                old(out)@ + replace_all(s@, pat@, rep@) == out@ + replace_all(
                    s@.subrange(i as int, n as int),
                    pat@,
                    rep@,
                ),
            decreases n - i,
        {
            let ghost rest = s@.subrange(i as int, n as int);
            assert(rest.drop_first() =~= s@.subrange(i + 1, n as int));
            out.append(rep);
            push_char(out, s[i]);
            i = i + 1;
            assert(out@ + replace_all(s@.subrange(i as int, n as int), pat@, rep@) =~= old(out)@
                + replace_all(s@, pat@, rep@));
        }
        out.append(rep);
        assert(s@.subrange(n as int, n as int) =~= Seq::<char>::empty());
    } else {
        while i < n
            invariant
                n == s.len(),
                pat@.len() > 0,
                i <= n,
                old(out)@ + replace_all(s@, pat@, rep@) == out@ + replace_all(
                    s@.subrange(i as int, n as int),
                    pat@,
                    rep@,
                ),
            decreases n - i,
        {
            let ghost rest = s@.subrange(i as int, n as int);
            if matches_at(s, pat, i) {
                assert(rest.subrange(pat@.len() as int, rest.len() as int) =~= s@.subrange(
                    i + pat@.len(),
                    n as int,
                ));
                out.append(rep);
                i = i + pat.len();
                assert(out@ + replace_all(s@.subrange(i as int, n as int), pat@, rep@) =~= old(
                    out,
                )@ + replace_all(s@, pat@, rep@));
            } else {
                assert(rest.drop_first() =~= s@.subrange(i + 1, n as int));
                push_char(out, s[i]);
                i = i + 1;
                assert(out@ + replace_all(s@.subrange(i as int, n as int), pat@, rep@) =~= old(
                    out,
                )@ + replace_all(s@, pat@, rep@));
            }
        }
        assert(s@.subrange(n as int, n as int) =~= Seq::<char>::empty());
    }
}

/// Every piece abbreviated as a component that is not the last.
pub open spec fn abbreviated(parts: Seq<Seq<char>>) -> Seq<Seq<char>> {
    Seq::new(parts.len(), |i: int| shorten_component(parts[i], false))
}

fn push_chars(out: &mut String, v: &Vec<char>)
    ensures
        final(out)@ == old(out)@ + v@,
{
    let mut i: usize = 0;
    while i < v.len()
        invariant
            i <= v.len(),
            out@ == old(out)@ + v@.subrange(0, i as int),
        decreases v.len() - i,
    {
        push_char(out, v[i]);
        i = i + 1;
        assert(out@ =~= old(out)@ + v@.subrange(0, i as int));
    }
    assert(v@.subrange(0, v.len() as int) =~= v@);
}

fn push_abbreviated(out: &mut String, part: &Vec<char>)
    ensures
        final(out)@ == old(out)@ + shorten_component(part@, false),
{
    let n = part.len();
    if n == 0 {
        assert(part@ =~= Seq::<char>::empty());
        assert(final(out)@ =~= old(out)@ + shorten_component(part@, false));
    } else if n == 1 && part[0] == '~' {
        assert(part@ =~= seq!['~']);
        push_char(out, '~');
        assert(final(out)@ =~= old(out)@ + shorten_component(part@, false));
    } else if part[0] == '.' && n > 1 {
        push_char(out, '.');
        push_char(out, part[1]);
        assert(final(out)@ =~= old(out)@ + shorten_component(part@, false));
    } else {
        push_char(out, part[0]);
        assert(final(out)@ =~= old(out)@ + shorten_component(part@, false));
    }
}

/// Shortens a path the way the fish shell does: `home` becomes `~`, and every
/// component but the last is cut to its first character (two for a hidden
/// one), e.g. `/home/u/.config/fish` with home `/home/u` gives `~/.c/fish`.
pub fn fish_shorten_path(path: &str, home: &str) -> (r: String)
    ensures
        r@ == fish_shortened(path@, home@),
{
    let path_chars = chars_of(path);
    let home_chars = chars_of(home);
    let mut replaced = String::new();
    proof {
        reveal_strlit("~");
        assert("~"@ =~= seq!['~']);
    }
    push_replaced(&mut replaced, &path_chars, &home_chars, "~");
    let p = chars_of(replaced.as_str());
    let ghost ps = p@;
    let n = p.len();
    let mut out = String::new();
    let mut cur: Vec<char> = Vec::new();
    let mut saw_sep = false;
    let mut i: usize = 0;
    assert(ps.subrange(0, 0) =~= Seq::<char>::empty());
    assert(split_on(ps.subrange(0, 0), '/') =~= seq![Seq::<char>::empty()]);
    assert(abbreviated(Seq::<Seq<char>>::empty()) =~= Seq::<Seq<char>>::empty());
    while i < n
        invariant
            n == p.len(),
            ps == p@,
            i <= n,
            split_on(ps.subrange(0, i as int), '/').len() >= 1,
            cur@ == split_on(ps.subrange(0, i as int), '/').last(),
            out@ == each_followed_by(
                abbreviated(split_on(ps.subrange(0, i as int), '/').drop_last()),
                seq!['/'],
            ),
            saw_sep == (split_on(ps.subrange(0, i as int), '/').len() > 1),
        decreases n - i,
    {
        let ghost before = split_on(ps.subrange(0, i as int), '/');
        let ghost prefix = ps.subrange(0, i + 1);
        assert(prefix.drop_last() =~= ps.subrange(0, i as int));
        assert(prefix.last() == p@[i as int]);
        let c = p[i];
        if c == '/' {
            let ghost after = before.push(Seq::<char>::empty());
            assert(split_on(prefix, '/') == after);
            assert(after.drop_last() =~= before);
            let ghost ab = abbreviated(before);
            assert(ab.drop_last() =~= abbreviated(before.drop_last()));
            assert(ab.last() == shorten_component(before.last(), false));
            push_abbreviated(&mut out, &cur);
            push_char(&mut out, '/');
            cur = Vec::new();
            saw_sep = true;
            assert(each_followed_by(ab, seq!['/']) == each_followed_by(ab.drop_last(), seq!['/'])
                + ab.last() + seq!['/']);
            assert(out@ =~= each_followed_by(abbreviated(after.drop_last()), seq!['/']));
            assert(cur@ =~= after.last());
        } else {
            let ghost after = before.update(before.len() - 1, before.last().push(c));
            assert(split_on(prefix, '/') == after);
            assert(after.drop_last() =~= before.drop_last());
            cur.push(c);
            assert(cur@ =~= after.last());
        }
        i = i + 1;
    }
    assert(ps.subrange(0, n as int) =~= ps);
    if !saw_sep {
        replaced
    } else {
        let ghost parts = split_on(ps, '/');
        proof {
            assert(shortened_components(parts) =~= abbreviated(parts.drop_last()).push(parts.last()));
            lemma_join_last(abbreviated(parts.drop_last()), parts.last(), seq!['/']);
        }
        push_chars(&mut out, &cur);
        out
    }
}

} // verus!
