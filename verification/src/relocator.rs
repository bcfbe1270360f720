//! Moving the recorded paths of tracks from one directory to another.
use crate::text::{begins_with, chars_of, holds, text_of, views};
use vstd::prelude::*;

verus! {

/// `s` without slashes at its end.
pub open spec fn unslashed(s: Seq<char>) -> Seq<char> {
    crate::text::trim_back(s, |c: char| c == '/')
}

/// The path after the move: under the new prefix, where it is the old prefix
/// or lies below it, with a slash as the boundary.
pub open spec fn relocated(path: Seq<char>, old_prefix: Seq<char>, new_prefix: Seq<char>) -> Option<
    Seq<char>,
> {
    let from = unslashed(old_prefix);
    let rest = path.skip(from.len() as int);
    if crate::text::begins(path, from) && (rest.len() == 0 || rest[0] == '/') {
        Some(unslashed(new_prefix) + rest)
    } else {
        None
    }
}

/// Identifier, old and new path of those of the first `n` tracks that move.
pub open spec fn relocations(
    rows: Seq<(i64, String)>,
    old_prefix: Seq<char>,
    new_prefix: Seq<char>,
    n: int,
) -> Seq<(i64, Seq<char>, Seq<char>)>
    decreases n,
{
    if n <= 0 {
        Seq::empty()
    } else {
        let before = relocations(rows, old_prefix, new_prefix, n - 1);
        match relocated(rows[n - 1].1@, old_prefix, new_prefix) {
            Some(to) => before.push((rows[n - 1].0, rows[n - 1].1@, to)),
            None => before,
        }
    }
}

/// `s` without slashes at its end.
fn trim_slashes(s: &str) -> (r: String)
    ensures
        r@ == unslashed(s@),
{
    let v = chars_of(s);
    let mut n: usize = v.len();
    let ghost p = |c: char| c == '/';
    assert(s@.take(n as int) =~= s@);
    while n > 0 && v[n - 1] == '/'
        invariant
            n <= v@.len(),
            v@ == s@,
            p == (|c: char| c == '/'),
            crate::text::trim_back(s@, p) == crate::text::trim_back(s@.take(n as int), p),
        decreases n,
    {
        assert(s@.take(n as int).drop_last() =~= s@.take(n - 1));
        assert(s@.take(n as int).last() == s@[n - 1]);
        n -= 1;
    }
    assert(s@.take(n as int) =~= s@.subrange(0, n as int));
    if n > 0 {
        assert(s@.take(n as int).last() == s@[n - 1]);
    }
    text_of(&v, 0, n)
}

/// The path after the move, if it moves.
pub fn relocate(path: &str, old_prefix: &str, new_prefix: &str) -> (r: Option<String>)
    ensures
        crate::text::opt_view(r) == relocated(path@, old_prefix@, new_prefix@),
{
    let from = trim_slashes(old_prefix);
    if !begins_with(path, from.as_str()) {
        return None;
    }
    let v = chars_of(path);
    let n: usize = from.as_str().unicode_len();
    if n < v.len() && v[n] != '/' {
        assert(path@.skip(n as int)[0] == v@[n as int]);
        return None;
    }
    let rest = text_of(&v, n, v.len());
    assert(rest@ =~= path@.skip(n as int));
    let mut out = trim_slashes(new_prefix);
    out.append(rest.as_str());
    Some(out)
}

/// Identifier, old and new path as mathematical values.
pub open spec fn relocation_views(v: Seq<(i64, String, String)>) -> Seq<(i64, Seq<char>, Seq<char>)> {
    v.map_values(|m: (i64, String, String)| (m.0, m.1@, m.2@))
}

/// Plans the move: every track whose path is the old prefix or lies below
/// it. Slashes at the end of a prefix do not matter, and a directory whose
/// name only begins like the old prefix is left alone.
pub fn plan_relocate(
    rows: &Vec<(i64, String)>,
    old_prefix: &str,
    new_prefix: &str,
) -> (r: Vec<(i64, String, String)>)
    ensures
        relocation_views(r@) == relocations(rows@, old_prefix@, new_prefix@, rows@.len() as int),
{
    let mut out: Vec<(i64, String, String)> = Vec::new();
    let mut i: usize = 0;
    assert(relocation_views(out@) =~= relocations(rows@, old_prefix@, new_prefix@, 0));
    while i < rows.len()
        invariant
            i <= rows@.len(),
            relocation_views(out@) == relocations(rows@, old_prefix@, new_prefix@, i as int),
        decreases rows@.len() - i,
    {
        if let Some(to) = relocate(rows[i].1.as_str(), old_prefix, new_prefix) {
            let ghost before = relocation_views(out@);
            out.push((rows[i].0, rows[i].1.clone(), to));
            assert(relocation_views(out@) =~= before.push(
                (rows@[i as int].0, rows@[i as int].1@, to@),
            ));
        }
        i += 1;
    }
    out
}

/// Those of the first `n` tracks whose file is not on disk.
pub open spec fn not_on_disk(rows: Seq<(i64, String)>, on_disk: Seq<Seq<char>>, n: int) -> Seq<
    (i64, Seq<char>),
>
    decreases n,
{
    if n <= 0 {
        Seq::empty()
    } else {
        let before = not_on_disk(rows, on_disk, n - 1);
        if on_disk.contains(rows[n - 1].1@) {
            before
        } else {
            before.push((rows[n - 1].0, rows[n - 1].1@))
        }
    }
}

/// Identifiers with the contents of their paths.
pub open spec fn path_views(v: Seq<(i64, String)>) -> Seq<(i64, Seq<char>)> {
    v.map_values(|t: (i64, String)| (t.0, t.1@))
}

/// The tracks whose file is missing, with its path. `on_disk` are the files
/// that were found.
pub fn verify_paths(rows: &Vec<(i64, String)>, on_disk: &Vec<String>) -> (r: Vec<(i64, String)>)
    ensures
        path_views(r@) == not_on_disk(rows@, views(on_disk@), rows@.len() as int),
{
    let mut out: Vec<(i64, String)> = Vec::new();
    let n: usize = rows.len();
    let mut i: usize = 0;
    assert(path_views(out@) =~= not_on_disk(rows@, views(on_disk@), 0));
    while i < n
        invariant
            i <= n,
            n == rows@.len(),
            path_views(out@) == not_on_disk(rows@, views(on_disk@), i as int),
        decreases n - i,
    {
        if !holds(on_disk, rows[i].1.as_str()) {
            let ghost before = path_views(out@);
            out.push((rows[i].0, rows[i].1.clone()));
            assert(path_views(out@) =~= before.push((rows@[i as int].0, rows@[i as int].1@)));
        }
        i += 1;
    }
    out
}

/// A pattern character of SQL's `LIKE`, or the escape character.
pub open spec fn is_meta(c: char) -> bool {
    c == '\\' || c == '%' || c == '_'
}

/// `s` with a backslash in front of each pattern character.
pub open spec fn escaped(s: Seq<char>) -> Seq<char>
    decreases s.len(),
{
    if s.len() == 0 {
        s
    } else if is_meta(s.last()) {
        escaped(s.drop_last()).push('\\').push(s.last())
    } else {
        escaped(s.drop_last()).push(s.last())
    }
}

/// `s` as a pattern that matches only itself, for use with `ESCAPE '\'`.
pub fn escape_like(s: &str) -> (r: String)
    ensures
        r@ == escaped(s@),
{
    let v = chars_of(s);
    let mut out = String::new();
    let mut i: usize = 0;
    while i < v.len()
        invariant
            i <= v@.len(),
            v@ == s@,
            out@ == escaped(s@.take(i as int)),
        decreases v@.len() - i,
    {
        let c = v[i];
        assert(s@.take(i + 1).drop_last() =~= s@.take(i as int));
        if c == '\\' || c == '%' || c == '_' {
            out.push('\\');
        }
        out.push(c);
        i += 1;
    }
    assert(s@.take(i as int) =~= s@);
    out
}

/// Whether the pattern `p` from `i` on, read with a backslash as the escape
/// character and without wildcards, stands for just the text `t` from `j` on.
pub open spec fn literal_match(p: Seq<char>, i: int, t: Seq<char>, j: int) -> bool
    decreases p.len() - i,
{
    if i < 0 || i >= p.len() {
        j == t.len()
    } else if p[i] == '\\' {
        i + 1 < p.len() && 0 <= j < t.len() && p[i + 1] == t[j] && literal_match(p, i + 2, t, j + 1)
    } else {
        p[i] != '%' && p[i] != '_' && 0 <= j < t.len() && p[i] == t[j] && literal_match(
            p,
            i + 1,
            t,
            j + 1,
        )
    }
}

proof fn lemma_escaped_concat(a: Seq<char>, c: char, b: Seq<char>)
    ensures
        escaped(a.push(c) + b) == escaped(a) + escaped(seq![c]) + escaped(b),
        escaped(seq![c]) == (if is_meta(c) { seq!['\\', c] } else { seq![c] }),
    decreases b.len(),
{
    assert(seq![c].drop_last() =~= Seq::<char>::empty());
    assert(escaped(Seq::<char>::empty()) =~= Seq::<char>::empty());
    assert(escaped(seq![c]) =~= if is_meta(c) { seq!['\\', c] } else { seq![c] });
    if b.len() == 0 {
        assert(a.push(c) + b =~= a.push(c));
        assert(a.push(c).drop_last() =~= a);
        assert(escaped(a.push(c)) =~= escaped(a) + escaped(seq![c]) + escaped(b));
    } else {
        lemma_escaped_concat(a, c, b.drop_last());
        assert((a.push(c) + b).drop_last() =~= a.push(c) + b.drop_last());
        assert((a.push(c) + b).last() == b.last());
        assert(escaped(a.push(c) + b) =~= escaped(a) + escaped(seq![c]) + escaped(b));
    }
}

proof fn lemma_literal(s: Seq<char>, k: int)
    requires
        0 <= k <= s.len(),
    ensures
        literal_match(escaped(s), escaped(s.take(k)).len() as int, s, k),
    decreases s.len() - k,
{
    if k == s.len() {
        assert(s.take(k) =~= s);
    } else {
        let c = s[k];
        let head = s.take(k);
        let tail = s.skip(k + 1);
        lemma_escaped_concat(head, c, tail);
        assert(head.push(c) + tail =~= s);
        lemma_literal(s, k + 1);
        lemma_escaped_concat(head, c, Seq::empty());
        assert(head.push(c) + Seq::<char>::empty() =~= s.take(k + 1));
        assert(escaped(Seq::<char>::empty()) =~= Seq::<char>::empty());
        let at = escaped(head).len() as int;
        let e = escaped(s);
        assert(e == escaped(head) + escaped(seq![c]) + escaped(tail));
        if is_meta(c) {
            assert(escaped(s.take(k + 1)).len() == at + 2);
            assert(e[at] == '\\' && e[at + 1] == c);
        } else {
            assert(escaped(s.take(k + 1)).len() == at + 1);
            assert(e[at] == c);
        }
    }
}

/// An escaped text is a pattern without wildcards that stands for the text
/// itself.
pub proof fn law_escaped_text_matches_itself(s: Seq<char>)
    ensures
        literal_match(escaped(s), 0, s, 0),
{
    lemma_literal(s, 0);
    assert(s.take(0) =~= Seq::<char>::empty());
    assert(escaped(s.take(0)).len() == 0);
}

/// A path that only begins like the prefix does not move.
pub proof fn law_siblings_are_left_alone(
    prefix: Seq<char>,
    more: Seq<char>,
    new_prefix: Seq<char>,
)
    requires
        prefix == unslashed(prefix),
        more.len() > 0,
        more[0] != '/',
    ensures
        relocated(prefix + more, prefix, new_prefix) is None,
{
    assert((prefix + more).skip(prefix.len() as int) =~= more);
}

/// What lies below the prefix moves, and a path moved there and back is the
/// same again.
pub proof fn law_relocation_can_be_undone(
    rest: Seq<char>,
    old_prefix: Seq<char>,
    new_prefix: Seq<char>,
)
    requires
        rest.len() == 0 || rest[0] == '/',
    ensures
        ({
            let path = unslashed(old_prefix) + rest;
            let moved = relocated(path, old_prefix, new_prefix);
            moved == Some(unslashed(new_prefix) + rest) && relocated(
                moved->0,
                new_prefix,
                old_prefix,
            ) == Some(path)
        }),
{
    let a = unslashed(old_prefix);
    let b = unslashed(new_prefix);
    assert((a + rest).skip(a.len() as int) =~= rest);
    assert((a + rest).take(a.len() as int) =~= a);
    assert((b + rest).skip(b.len() as int) =~= rest);
    assert((b + rest).take(b.len() as int) =~= b);
}


/// Slashes at the end of a prefix do not matter, and none is left.
pub proof fn law_slashes_at_the_end_do_not_matter(s: Seq<char>)
    ensures
        unslashed(s.push('/')) == unslashed(s),
        s.len() > 0 && s.last() != '/' ==> unslashed(s) == s,
        unslashed(s).len() > 0 ==> unslashed(s).last() != '/',
        crate::text::begins(s, unslashed(s)),
    decreases s.len(),
{
    assert(s.push('/').drop_last() =~= s);
    if s.len() > 0 && s.last() == '/' {
        law_slashes_at_the_end_do_not_matter(s.drop_last());
        let u = unslashed(s);
        assert(u == unslashed(s.drop_last()));
        assert(s.take(u.len() as int) =~= s.drop_last().take(u.len() as int));
    } else {
        assert(s.take(s.len() as int) =~= s);
        assert(s.len() == 0 ==> unslashed(s) =~= s);
    }
}

proof fn lemma_relocations_add(
    a: Seq<(i64, String)>,
    b: Seq<(i64, String)>,
    old_prefix: Seq<char>,
    new_prefix: Seq<char>,
    n: int,
)
    requires
        0 <= n <= b.len(),
    ensures
        relocations(a + b, old_prefix, new_prefix, a.len() + n) == relocations(
            a,
            old_prefix,
            new_prefix,
            a.len() as int,
        ) + relocations(b, old_prefix, new_prefix, n),
    decreases n,
{
    let whole = relocations(a, old_prefix, new_prefix, a.len() as int);
    if n == 0 {
        lemma_relocations_prefix(a, a + b, old_prefix, new_prefix, a.len() as int);
        assert(whole + Seq::<(i64, Seq<char>, Seq<char>)>::empty() =~= whole);
    } else {
        lemma_relocations_add(a, b, old_prefix, new_prefix, n - 1);
        assert((a + b)[a.len() + n - 1] == b[n - 1]);
        let before = relocations(b, old_prefix, new_prefix, n - 1);
        if relocated(b[n - 1].1@, old_prefix, new_prefix) is Some {
            let x = (
                b[n - 1].0,
                b[n - 1].1@,
                relocated(b[n - 1].1@, old_prefix, new_prefix)->0,
            );
            assert((whole + before).push(x) =~= whole + before.push(x));
        }
    }
}

proof fn lemma_relocations_prefix(
    a: Seq<(i64, String)>,
    b: Seq<(i64, String)>,
    old_prefix: Seq<char>,
    new_prefix: Seq<char>,
    n: int,
)
    requires
        n <= a.len(),
        n <= b.len(),
        forall|i: int| 0 <= i < n ==> a[i] == b[i],
    ensures
        relocations(a, old_prefix, new_prefix, n) == relocations(b, old_prefix, new_prefix, n),
    decreases n,
{
    if n > 0 {
        lemma_relocations_prefix(a, b, old_prefix, new_prefix, n - 1);
    }
}

/// The moves are planned in the order of the tracks, and each track's on its
/// own: what lies below the old prefix moves below the new one, what does not
/// stays.
pub proof fn law_moves_follow_the_tracks(
    a: Seq<(i64, String)>,
    b: Seq<(i64, String)>,
    t: (i64, String),
    old_prefix: Seq<char>,
    new_prefix: Seq<char>,
    rest: Seq<char>,
)
    ensures
        relocations(a + b, old_prefix, new_prefix, (a + b).len() as int) == relocations(
            a,
            old_prefix,
            new_prefix,
            a.len() as int,
        ) + relocations(b, old_prefix, new_prefix, b.len() as int),
        (rest.len() == 0 || rest[0] == '/') && t.1@ == unslashed(old_prefix) + rest ==> relocations(
            seq![t],
            old_prefix,
            new_prefix,
            1,
        ) == seq![(t.0, t.1@, unslashed(new_prefix) + rest)],
        (forall|k: int|
            0 <= k <= t.1@.len() ==> #[trigger] t.1@.take(k) != unslashed(old_prefix))
            ==> relocations(seq![t], old_prefix, new_prefix, 1).len() == 0,
{
    lemma_relocations_add(a, b, old_prefix, new_prefix, b.len() as int);
    let one = relocations(seq![t], old_prefix, new_prefix, 0);
    assert(one =~= Seq::<(i64, Seq<char>, Seq<char>)>::empty());
    if (rest.len() == 0 || rest[0] == '/') && t.1@ == unslashed(old_prefix) + rest {
        law_relocation_can_be_undone(rest, old_prefix, new_prefix);
        assert(relocations(seq![t], old_prefix, new_prefix, 1) =~= seq![
            (t.0, t.1@, unslashed(new_prefix) + rest),
        ]);
    }
}

/// A track is missing where its file is not on disk.
pub proof fn law_files_not_found_are_missing(
    rows: Seq<(i64, String)>,
    on_disk: Seq<Seq<char>>,
    n: int,
    k: int,
)
    requires
        0 <= k < n <= rows.len(),
    ensures
        !on_disk.contains(rows[k].1@) ==> not_on_disk(rows, on_disk, n).contains(
            (rows[k].0, rows[k].1@),
        ),
        forall|p: Seq<char>, id: i64|
            on_disk.contains(p) ==> !#[trigger] not_on_disk(rows, on_disk, n).contains((id, p)),
        not_on_disk(rows, on_disk, n).len() <= n,
    decreases n,
{
    let r = not_on_disk(rows, on_disk, n);
    let before = not_on_disk(rows, on_disk, n - 1);
    if n > 1 {
        law_files_not_found_are_missing(rows, on_disk, n - 1, if k < n - 1 { k } else { 0 });
    } else {
        assert(before =~= Seq::<(i64, Seq<char>)>::empty());
    }
    if !on_disk.contains(rows[k].1@) {
        if k < n - 1 {
            let x = (rows[k].0, rows[k].1@);
            assert(before.contains(x));
            assert(r[before.index_of(x)] == x);
        } else {
            assert(r[r.len() - 1] == (rows[k].0, rows[k].1@));
        }
    }
    assert forall|p: Seq<char>, id: i64| on_disk.contains(p) implies !#[trigger] not_on_disk(
        rows,
        on_disk,
        n,
    ).contains((id, p)) by {
        if r.contains((id, p)) {
            let i = r.index_of((id, p));
            if i < before.len() {
                assert(before[i] == (id, p));
                assert(before.contains((id, p)));
            }
        }
    }
}

} // verus!
