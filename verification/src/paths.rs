//! Slash-separated paths, and the form in which the database stores them.
//!
//! Paths inside the music directory are stored relative to it; all others are
//! stored absolute. Renaming the library directory therefore needs nothing
//! more than a new music directory in the configuration: every relative path
//! resolves through the new prefix.
use crate::text::{chars_of, same, text_of};
use vstd::prelude::*;

verus! {

/// The position of the first slash of `s` at or after `i`, or the end of `s`.
pub open spec fn next_slash(s: Seq<char>, i: int) -> int
    decreases s.len() - i,
{
    if 0 <= i < s.len() && s[i] != '/' {
        next_slash(s, i + 1)
    } else {
        i
    }
}

/// Pieces between slashes that name nothing: empty ones, and a lone dot.
pub open spec fn is_void(s: Seq<char>, i: int, e: int) -> bool {
    e <= i || (e == i + 1 && s[i] == '.')
}

/// Where the components of `s` stand from position `i` on, a piece boundary.
pub open spec fn spans_from(s: Seq<char>, i: int) -> Seq<(int, int)>
    decreases s.len() - i + 1,
{
    if i < 0 || i >= s.len() {
        Seq::empty()
    } else {
        let e = next_slash(s, i);
        proof {
            lemma_next_slash(s, i);
        }
        if is_void(s, i, e) {
            spans_from(s, e + 1)
        } else {
            seq![(i, e)] + spans_from(s, e + 1)
        }
    }
}

/// Whether a relative path begins with a lone dot, which then is a component.
pub open spec fn dot_first(s: Seq<char>) -> bool {
    s.len() > 0 && s[0] == '.' && (s.len() == 1 || s[1] == '/')
}

/// Whether a path is absolute.
pub open spec fn absolute(s: Seq<char>) -> bool {
    s.len() > 0 && s[0] == '/'
}

/// Where the components of the path `s` stand. The root of an absolute path is
/// its first component, the text "/".
pub open spec fn spans(s: Seq<char>) -> Seq<(int, int)> {
    if absolute(s) {
        seq![(0int, 1int)] + spans_from(s, 1)
    } else if dot_first(s) {
        seq![(0int, 1int)] + spans_from(s, 2)
    } else {
        spans_from(s, 0)
    }
}

/// The texts at `at` in `s`.
pub open spec fn cut(s: Seq<char>, at: Seq<(int, int)>) -> Seq<Seq<char>> {
    at.map_values(|p: (int, int)| s.subrange(p.0, p.1))
}

/// The components of a path. Two paths are the same path when their
/// components are the same.
pub open spec fn comps(s: Seq<char>) -> Seq<Seq<char>> {
    cut(s, spans(s))
}

/// Whether `p` is `base` or lies below it.
pub open spec fn within(p: Seq<char>, base: Seq<char>) -> bool {
    comps(base).is_prefix_of(comps(p))
}

/// Whether `p` lies below `base` and is not `base` itself.
pub open spec fn below(p: Seq<char>, base: Seq<char>) -> bool {
    within(p, base) && comps(p) != comps(base)
}

/// Whether `p` lies strictly below one of `roots`.
pub open spec fn below_any(p: Seq<char>, roots: Seq<Seq<char>>) -> bool {
    exists|i: int| 0 <= i < roots.len() && below(p, #[trigger] roots[i])
}

/// What is left of `p` after its first `n` components.
pub open spec fn tail_text(p: Seq<char>, n: int) -> Seq<char> {
    if 0 <= n < spans(p).len() {
        p.subrange(spans(p)[n].0, spans(p).last().1)
    } else {
        Seq::empty()
    }
}

/// `p` relative to `base`, if `p` is `base` or lies below it.
pub open spec fn relative_to(p: Seq<char>, base: Seq<char>) -> Option<Seq<char>> {
    if within(p, base) { Some(tail_text(p, comps(base).len() as int)) } else { None }
}

/// `b` seen from `a`: `b` itself where it is absolute, else `a`, a slash if
/// one is needed, and `b`.
pub open spec fn joined(a: Seq<char>, b: Seq<char>) -> Seq<char> {
    if absolute(b) {
        b
    } else if a.len() == 0 || a.last() == '/' {
        a + b
    } else {
        a.push('/') + b
    }
}

/// The path without its last component; nothing for a root or an empty path.
pub open spec fn parent_of(p: Seq<char>) -> Option<Seq<char>> {
    let at = spans(p);
    if at.len() == 0 || (absolute(p) && at.len() == 1) {
        None
    } else if at.len() == 1 {
        Some(Seq::empty())
    } else {
        Some(p.take(at[at.len() - 2].1))
    }
}

/// The last component, where it is a name.
pub open spec fn name_of_path(p: Seq<char>) -> Option<Seq<char>> {
    let c = comps(p);
    if c.len() == 0 || c.last() == seq!['/'] || c.last() == seq!['.'] || c.last() == seq!['.', '.'] {
        None
    } else {
        Some(c.last())
    }
}

/// The last position of `c` in `s`.
pub open spec fn last_of(s: Seq<char>, c: char) -> Option<int>
    decreases s.len(),
{
    if s.len() == 0 {
        None
    } else if s.last() == c {
        Some(s.len() - 1)
    } else {
        last_of(s.drop_last(), c)
    }
}

/// Where a file name's extension begins: at its last dot, unless that is its
/// first character.
pub open spec fn dot_at(name: Seq<char>) -> Option<int> {
    match last_of(name, '.') {
        Some(i) => if i == 0 { None } else { Some(i) },
        None => None,
    }
}

/// A file name without its extension.
pub open spec fn stem_of_name(name: Seq<char>) -> Seq<char> {
    match dot_at(name) {
        Some(i) => name.take(i),
        None => name,
    }
}

/// The extension of a file name, without the dot.
pub open spec fn ext_of_name(name: Seq<char>) -> Option<Seq<char>> {
    match dot_at(name) {
        Some(i) => Some(name.skip(i + 1)),
        None => None,
    }
}

/// The extension of a path's file name.
pub open spec fn ext_of_path(p: Seq<char>) -> Option<Seq<char>> {
    match name_of_path(p) {
        Some(n) => ext_of_name(n),
        None => None,
    }
}

/// The stem of a path's file name.
pub open spec fn stem_of_path(p: Seq<char>) -> Option<Seq<char>> {
    match name_of_path(p) {
        Some(n) => Some(stem_of_name(n)),
        None => None,
    }
}

// ---------------------------------------------------------------------------
// Facts about components

pub proof fn lemma_next_slash(s: Seq<char>, i: int)
    ensures
        next_slash(s, i) >= i,
        0 <= i <= s.len() ==> next_slash(s, i) <= s.len(),
        forall|k: int| i <= k < next_slash(s, i) ==> s[k] != '/',
        0 <= i && next_slash(s, i) < s.len() ==> s[next_slash(s, i)] == '/',
    decreases s.len() - i,
{
    if 0 <= i < s.len() && s[i] != '/' {
        lemma_next_slash(s, i + 1);
    }
}

proof fn lemma_next_slash_is(s: Seq<char>, i: int, e: int)
    requires
        0 <= i <= e <= s.len(),
        forall|k: int| i <= k < e ==> s[k] != '/',
        e == s.len() || s[e] == '/',
    ensures
        next_slash(s, i) == e,
    decreases e - i,
{
    if i < e {
        lemma_next_slash_is(s, i + 1, e);
    }
}

/// Spans lie in the text, in order and apart from each other.
pub proof fn lemma_spans_from(s: Seq<char>, i: int)
    requires
        0 <= i,
    ensures
        forall|k: int|
            0 <= k < spans_from(s, i).len() ==> {
                let p = #[trigger] spans_from(s, i)[k];
                i <= p.0 < p.1 <= s.len() && (forall|m: int| p.0 <= m < p.1 ==> s[m] != '/')
                    && !is_void(s, p.0, p.1)
            },
        forall|k: int, m: int|
            0 <= k < m < spans_from(s, i).len() ==> (#[trigger] spans_from(s, i)[k]).1 < (
            #[trigger] spans_from(s, i)[m]).0,
    decreases s.len() - i + 1,
{
    if i < s.len() {
        let e = next_slash(s, i);
        lemma_next_slash(s, i);
        lemma_spans_from(s, e + 1);
        let rest = spans_from(s, e + 1);
        if !is_void(s, i, e) {
            let all = spans_from(s, i);
            assert(all =~= seq![(i, e)] + rest);
            assert forall|k: int| 0 <= k < all.len() implies ({
                let p = #[trigger] all[k];
                i <= p.0 < p.1 <= s.len() && (forall|m: int| p.0 <= m < p.1 ==> s[m] != '/')
                    && !is_void(s, p.0, p.1)
            }) by {
                if k > 0 {
                    assert(all[k] == rest[k - 1]);
                }
            }
            assert forall|k: int, m: int| 0 <= k < m < all.len() implies (#[trigger] all[k]).1 < (
            #[trigger] all[m]).0 by {
                assert(all[m] == rest[m - 1]);
                if k > 0 {
                    assert(all[k] == rest[k - 1]);
                }
            }
        }
    }
}

/// Spans of a whole path lie in its text.
pub proof fn lemma_spans(s: Seq<char>)
    ensures
        forall|k: int|
            0 <= k < spans(s).len() ==> {
                let p = #[trigger] spans(s)[k];
                0 <= p.0 < p.1 <= s.len()
            },
        forall|k: int, m: int|
            0 <= k < m < spans(s).len() ==> (#[trigger] spans(s)[k]).1 <= (#[trigger] spans(s)[m]).0,
        spans(s).len() == 0 <==> s.len() == 0,
{
    lemma_spans_from(s, 0);
    lemma_spans_from(s, 1);
    lemma_spans_from(s, 2);
    if s.len() > 0 && !absolute(s) && !dot_first(s) {
        lemma_next_slash(s, 0);
        let e = next_slash(s, 0);
        assert(!is_void(s, 0, e));
    }
    let from = if absolute(s) { 1int } else { 2int };
    if absolute(s) || dot_first(s) {
        let rest = spans_from(s, from);
        let all = spans(s);
        assert(all =~= seq![(0int, 1int)] + rest);
        assert forall|k: int| 0 <= k < all.len() implies ({
            let p = #[trigger] all[k];
            0 <= p.0 < p.1 <= s.len()
        }) by {
            if k > 0 {
                assert(all[k] == rest[k - 1]);
            }
        }
        assert forall|k: int, m: int| 0 <= k < m < all.len() implies (#[trigger] all[k]).1 <= (
        #[trigger] all[m]).0 by {
            assert(all[m] == rest[m - 1]);
            if k > 0 {
                assert(all[k] == rest[k - 1]);
            }
        }
    }
}

/// Text in front of a piece boundary does not change the components after it.
proof fn lemma_shift(pre: Seq<char>, b: Seq<char>, j: int)
    requires
        0 <= j,
    ensures
        cut(pre + b, spans_from(pre + b, pre.len() + j)) == cut(b, spans_from(b, j)),
        spans_from(pre + b, pre.len() + j).len() == spans_from(b, j).len(),
    decreases b.len() - j + 1,
{
    let s = pre + b;
    let n = pre.len();
    if j < b.len() {
        let e = next_slash(b, j);
        lemma_next_slash(b, j);
        lemma_next_slash_is(s, n + j, n + e);
        lemma_shift(pre, b, e + 1);
        assert(is_void(s, n + j, n + e) == is_void(b, j, e));
        if !is_void(b, j, e) {
            assert(s.subrange(n + j, n + e) =~= b.subrange(j, e));
            let r1 = spans_from(s, n + e + 1);
            let r2 = spans_from(b, e + 1);
            assert(cut(s, seq![(n + j, n + e)] + r1) =~= seq![s.subrange(n + j, n + e)] + cut(s, r1));
            assert(cut(b, seq![(j, e)] + r2) =~= seq![b.subrange(j, e)] + cut(b, r2));
        }
    } else {
        assert(cut(s, spans_from(s, n + j)) =~= cut(b, spans_from(b, j)));
    }
}

/// The components of `a` followed by `b`, where `a` ends in a slash.
proof fn lemma_concat_from(a: Seq<char>, b: Seq<char>, i: int)
    requires
        0 <= i <= a.len(),
        a.len() > 0,
        a.last() == '/',
    ensures
        cut(a + b, spans_from(a + b, i)) == cut(a, spans_from(a, i)) + cut(b, spans_from(b, 0)),
    decreases a.len() - i,
{
    let s = a + b;
    if i == a.len() {
        lemma_shift(a, b, 0);
        assert(cut(a, spans_from(a, i)) =~= Seq::<Seq<char>>::empty());
        assert(cut(s, spans_from(s, i)) =~= Seq::<Seq<char>>::empty() + cut(b, spans_from(b, 0)));
    } else {
        let e = next_slash(a, i);
        lemma_next_slash(a, i);
        assert(e < a.len()) by {
            if e == a.len() {
                assert(a[a.len() - 1] != '/');
            }
        }
        lemma_next_slash_is(s, i, e);
        lemma_concat_from(a, b, e + 1);
        assert(is_void(s, i, e) == is_void(a, i, e));
        if !is_void(a, i, e) {
            assert(s.subrange(i, e) =~= a.subrange(i, e));
            let r1 = spans_from(s, e + 1);
            let r2 = spans_from(a, e + 1);
            assert(cut(s, seq![(i, e)] + r1) =~= seq![s.subrange(i, e)] + cut(s, r1));
            assert(cut(a, seq![(i, e)] + r2) =~= seq![a.subrange(i, e)] + cut(a, r2));
            assert((seq![a.subrange(i, e)] + cut(a, r2)) + cut(b, spans_from(b, 0)) =~= seq![
                a.subrange(i, e),
            ] + (cut(a, r2) + cut(b, spans_from(b, 0))));
        }
    }
}

/// A slash at the end adds no component.
proof fn lemma_trailing_slash(a: Seq<char>, i: int)
    requires
        0 <= i,
    ensures
        cut(a.push('/'), spans_from(a.push('/'), i)) == cut(a, spans_from(a, i)),
    decreases a.len() - i + 1,
{
    let s = a.push('/');
    if i < a.len() {
        let e = next_slash(a, i);
        lemma_next_slash(a, i);
        lemma_next_slash_is(s, i, e);
        lemma_trailing_slash(a, e + 1);
        assert(is_void(s, i, e) == is_void(a, i, e));
        if !is_void(a, i, e) {
            assert(s.subrange(i, e) =~= a.subrange(i, e));
            let r1 = spans_from(s, e + 1);
            let r2 = spans_from(a, e + 1);
            assert(cut(s, seq![(i, e)] + r1) =~= seq![s.subrange(i, e)] + cut(s, r1));
            assert(cut(a, seq![(i, e)] + r2) =~= seq![a.subrange(i, e)] + cut(a, r2));
        }
    } else {
        if i == a.len() {
            lemma_next_slash_is(s, i, i);
            assert(spans_from(s, i + 1) =~= Seq::<(int, int)>::empty());
        }
        assert(spans_from(s, i) =~= Seq::<(int, int)>::empty());
        assert(cut(s, spans_from(s, i)) =~= cut(a, spans_from(a, i)));
    }
}

/// Joining a plain relative path adds its components.
pub proof fn lemma_joined(a: Seq<char>, b: Seq<char>)
    requires
        a.len() > 0,
        !absolute(b),
        !dot_first(b),
    ensures
        comps(joined(a, b)) == comps(a) + comps(b),
        absolute(joined(a, b)) == absolute(a),
{
    let d = if a.last() == '/' { a } else { a.push('/') };
    let s = d + b;
    assert(joined(a, b) == s);
    let from = if absolute(a) { 1int } else if dot_first(a) { 2int } else { 0int };
    if a.last() != '/' {
        lemma_trailing_slash(a, from);
    }
    if from == 2 && a.len() == 1 {
        assert(d.len() == 2);
    }
    assert(d.len() >= from);
    lemma_concat_from(d, b, from);
    assert(absolute(s) == absolute(a));
    assert(dot_first(s) == dot_first(a));
    if from > 0 {
        assert(s.subrange(0, 1) =~= a.subrange(0, 1));
        assert(cut(s, seq![(0int, 1int)] + spans_from(s, from)) =~= seq![s.subrange(0, 1)] + cut(
            s,
            spans_from(s, from),
        ));
        assert(cut(a, seq![(0int, 1int)] + spans_from(a, from)) =~= seq![a.subrange(0, 1)] + cut(
            a,
            spans_from(a, from),
        ));
        assert((seq![a.subrange(0, 1)] + cut(a, spans_from(a, from))) + comps(b) =~= seq![
            a.subrange(0, 1),
        ] + (cut(a, spans_from(a, from)) + comps(b)));
    }
}

/// From the start of a component on, the spans are the remaining ones.
proof fn lemma_resume(s: Seq<char>, i: int, j: int)
    requires
        0 <= i,
        0 <= j < spans_from(s, i).len(),
    ensures
        spans_from(s, spans_from(s, i)[j].0) == spans_from(s, i).skip(j),
    decreases s.len() - i + 1,
{
    let e = next_slash(s, i);
    lemma_next_slash(s, i);
    let all = spans_from(s, i);
    let rest = spans_from(s, e + 1);
    if is_void(s, i, e) {
        lemma_resume(s, e + 1, j);
    } else if j == 0 {
        assert(all.skip(0) =~= all);
    } else {
        lemma_resume(s, e + 1, j - 1);
        assert(all[j] == rest[j - 1]);
        assert(all.skip(j) =~= rest.skip(j - 1));
    }
}

/// A text that ends where component `j` ends has the components up to it.
proof fn lemma_cut_at(s: Seq<char>, i: int, j: int)
    requires
        0 <= i,
        0 <= j < spans_from(s, i).len(),
    ensures
        spans_from(s.take(spans_from(s, i)[j].1), i) == spans_from(s, i).take(j + 1),
        i < spans_from(s, i)[j].1 <= s.len(),
    decreases s.len() - i + 1,
{
    lemma_spans_from(s, i);
    let e = next_slash(s, i);
    lemma_next_slash(s, i);
    let all = spans_from(s, i);
    let rest = spans_from(s, e + 1);
    let t = s.take(all[j].1);
    assert(all[j].1 <= s.len());
    if is_void(s, i, e) {
        lemma_cut_at(s, e + 1, j);
        lemma_next_slash_is(t, i, e);
    } else {
        assert(all =~= seq![(i, e)] + rest);
        if j > 0 {
            assert(rest[j - 1] == all[j]);
            lemma_cut_at(s, e + 1, j - 1);
        }
        lemma_next_slash_is(t, i, e);
        assert(spans_from(t, e + 1) =~= rest.take(j));
        assert(all.take(j + 1) =~= seq![(i, e)] + rest.take(j));
    }
}

/// What follows the last component holds none.
proof fn lemma_cut_end(s: Seq<char>, i: int, z: int)
    requires
        0 <= i,
        spans_from(s, i).len() > 0,
        spans_from(s, i).last().1 == z,
    ensures
        spans_from(s.take(z), i) == spans_from(s, i),
        i < z <= s.len(),
{
    let all = spans_from(s, i);
    lemma_cut_at(s, i, all.len() - 1);
    assert(all.take(all.len() as int) =~= all);
}

/// The parent of a path has all its components but the last.
pub proof fn law_parent_drops_the_last_component(p: Seq<char>)
    requires
        parent_of(p) is Some,
    ensures
        comps(parent_of(p)->0) == comps(p).drop_last(),
{
    lemma_spans(p);
    let all = spans(p);
    let q = parent_of(p)->0;
    let from = if absolute(p) { 1int } else if dot_first(p) { 2int } else { 0int };
    let off = if from == 0 { 0int } else { 1int };
    let body = spans_from(p, from);
    assert(from > 0 ==> all =~= seq![(0int, 1int)] + body);
    let n = all.len() - 1;
    if n == 0 {
        assert(spans(q) =~= Seq::<(int, int)>::empty());
    } else {
        assert(q == p.take(all[n - 1].1));
        lemma_spans_from(p, from);
        if n > off {
            assert(all[n - 1] == body[n - 1 - off]);
            assert(!is_void(p, body[n - 1 - off].0, body[n - 1 - off].1));
            lemma_cut_at(p, from, n - 1 - off);
        }
        assert(absolute(q) == absolute(p));
        assert(dot_first(q) == dot_first(p));
        assert(spans_from(q, from) =~= body.take(n - off));
        assert(spans(q) =~= all.take(n));
    }
    assert(cut(q, spans(q)) =~= cut(p, all).drop_last()) by {
        assert forall|k: int| 0 <= k < n implies cut(q, spans(q))[k] == cut(p, all)[k] by {
            assert(all[k].1 <= q.len()) by {
                if k < n - 1 {
                    assert(all[k].1 <= all[n - 1].0);
                }
            }
            assert(q.subrange(all[k].0, all[k].1) =~= p.subrange(all[k].0, all[k].1));
        }
    }
}

/// What is left after the first `n` components has just the other ones.
pub proof fn lemma_tail(p: Seq<char>, n: int)
    requires
        0 < n < spans(p).len(),
    ensures
        comps(tail_text(p, n)) == comps(p).skip(n),
        tail_text(p, n).len() > 0,
        !absolute(tail_text(p, n)),
        !dot_first(tail_text(p, n)),
{
    lemma_spans(p);
    let all = spans(p);
    let a = all[n].0;
    let z = all.last().1;
    assert(all[n].0 < all[n].1 <= z) by {
        if n < all.len() - 1 {
            assert(all[n].1 <= all[all.len() - 1].0);
        }
    }
    let from = if absolute(p) { 1int } else if dot_first(p) { 2int } else { 0int };
    let off = if from == 0 { 0int } else { 1int };
    let body = spans_from(p, from);
    assert(from > 0 ==> all =~= seq![(0int, 1int)] + body);
    assert(all[n] == body[n - off]);
    assert(all.last() == body.last());
    lemma_spans_from(p, from);
    lemma_resume(p, from, n - off);
    assert(spans_from(p, a) == body.skip(n - off));
    assert(body.skip(n - off).last() == body.last());
    lemma_cut_end(p, a, z);
    let t = p.take(z);
    let rest = tail_text(p, n);
    assert(t =~= p.take(a) + rest);
    assert(p.take(a).len() == a);
    lemma_shift(p.take(a), rest, 0);
    assert(cut(t, spans_from(t, a)) == cut(rest, spans_from(rest, 0)));
    assert(rest[0] == p[a]);
    assert(!is_void(p, body[n - off].0, body[n - off].1));
    assert(!dot_first(rest)) by {
        if dot_first(rest) {
            assert(p[a] == '.');
            let q = body[n - off];
            if rest.len() > 1 {
                assert(rest[1] == p[a + 1]);
                assert(p[a + 1] == '/');
                assert(q.1 <= a + 1) by {
                    if q.1 > a + 1 {
                        assert(p[a + 1] != '/');
                    }
                }
            } else {
                assert(q.1 <= z);
            }
        }
    }
    assert(cut(p, spans_from(p, a)) =~= cut(t, spans_from(t, a))) by {
        lemma_spans_from(p, a);
        lemma_spans_from(t, a);
        assert forall|k: int| 0 <= k < spans_from(p, a).len() implies cut(p, spans_from(p, a))[k]
            == cut(t, spans_from(t, a))[k] by {
            let q = spans_from(t, a)[k];
            assert(q.1 <= t.len());
            assert(p.subrange(q.0, q.1) =~= t.subrange(q.0, q.1));
        }
    }
    assert(comps(p).skip(n) =~= cut(p, all.skip(n)));
    assert(all.skip(n) =~= body.skip(n - off));
}

/// A text without a slash is one component, unless it is a lone dot.
pub proof fn lemma_one_component(b: Seq<char>)
    requires
        b.len() > 1,
        !b.contains('/'),
    ensures
        comps(b) == seq![b],
        !absolute(b),
        !dot_first(b),
{
    assert(b[0] != '/' && b[1] != '/');
    assert forall|k: int| 0 <= k < b.len() implies b[k] != '/' by {
        assert(b.contains(b[k]));
    }
    lemma_next_slash_is(b, 0, b.len() as int);
    assert(spans_from(b, (b.len() + 1) as int) =~= Seq::<(int, int)>::empty());
    assert(spans(b) =~= seq![(0int, b.len() as int)]);
    assert(b.subrange(0, b.len() as int) =~= b);
    assert(comps(b) =~= seq![b]);
}

/// The name of a path holds no slash.
pub proof fn lemma_name_has_no_slash(p: Seq<char>)
    requires
        name_of_path(p) is Some,
    ensures
        !name_of_path(p)->0.contains('/'),
{
    let all = spans(p);
    let from = if absolute(p) { 1int } else if dot_first(p) { 2int } else { 0int };
    let body = spans_from(p, from);
    assert(from > 0 ==> all =~= seq![(0int, 1int)] + body);
    lemma_spans_from(p, from);
    let name = name_of_path(p)->0;
    let q = all.last();
    assert(name == p.subrange(q.0, q.1));
    if body.len() == 0 {
        assert(name =~= seq![p[0]]);
        assert(p[0] == '/' || p[0] == '.');
        assert(comps(p).last() == seq!['/'] || comps(p).last() == seq!['.']);
    } else {
        assert(q == body[body.len() - 1]);
        assert forall|k: int| 0 <= k < name.len() implies name[k] != '/' by {
            assert(name[k] == p[q.0 + k]);
        }
    }
}

// ---------------------------------------------------------------------------
// Executable paths

/// Spans as mathematical integers.
pub open spec fn span_view(v: Seq<(usize, usize)>) -> Seq<(int, int)> {
    v.map_values(|p: (usize, usize)| (p.0 as int, p.1 as int))
}

/// Where the components of `v` stand from the piece boundary `from` on, added
/// to `head`.
fn spans_after(v: &Vec<char>, from: usize, head: Vec<(usize, usize)>) -> (r: Vec<(usize, usize)>)
    ensures
        span_view(r@) == span_view(head@) + spans_from(v@, from as int),
{
    let mut out = head;
    let mut i: usize = from;
    let n: usize = v.len();
    while i < n
        invariant
            n == v@.len(),
            span_view(out@) + spans_from(v@, i as int) == span_view(head@) + spans_from(
                v@,
                from as int,
            ),
        decreases n - i,
    {
        let mut e: usize = i;
        while e < n && v[e] != '/'
            invariant
                i <= e <= n,
                n == v@.len(),
                next_slash(v@, i as int) == next_slash(v@, e as int),
            decreases n - e,
        {
            e += 1;
        }
        let ghost rest = spans_from(v@, e + 1);
        if e == i || (e == i + 1 && v[i] == '.') {
            assert(spans_from(v@, i as int) == rest);
        } else {
            let ghost before = out@;
            out.push((i, e));
            assert(span_view(out@) =~= span_view(before).push((i as int, e as int)));
            assert(span_view(before).push((i as int, e as int)) + rest =~= span_view(before) + (seq![
                (i as int, e as int),
            ] + rest));
        }
        if e == n {
            assert(spans_from(v@, e + 1) =~= Seq::<(int, int)>::empty());
            assert(spans_from(v@, e as int) =~= Seq::<(int, int)>::empty());
            i = n;
        } else {
            i = e + 1;
        }
    }
    assert(spans_from(v@, i as int) =~= Seq::<(int, int)>::empty());
    assert(span_view(out@) + Seq::<(int, int)>::empty() =~= span_view(out@));
    out
}

/// Where the components of a path stand.
fn spans_of(v: &Vec<char>) -> (r: Vec<(usize, usize)>)
    ensures
        span_view(r@) == spans(v@),
{
    let mut head: Vec<(usize, usize)> = Vec::new();
    if v.len() > 0 && v[0] == '/' {
        head.push((0, 1));
        assert(span_view(head@) =~= seq![(0int, 1int)]);
        spans_after(v, 1, head)
    } else if v.len() > 0 && v[0] == '.' && (v.len() == 1 || v[1] == '/') {
        head.push((0, 1));
        assert(span_view(head@) =~= seq![(0int, 1int)]);
        spans_after(v, 2, head)
    } else {
        let r = spans_after(v, 0, head);
        assert(span_view(head@) + spans_from(v@, 0) =~= spans_from(v@, 0));
        r
    }
}

/// The components of a path.
pub fn components(p: &str) -> (r: Vec<String>)
    ensures
        crate::text::views(r@) == comps(p@),
{
    let v = chars_of(p);
    let at = spans_of(&v);
    proof {
        lemma_spans(p@);
    }
    let mut out: Vec<String> = Vec::new();
    let mut i: usize = 0;
    while i < at.len()
        invariant
            i <= at@.len(),
            v@ == p@,
            span_view(at@) == spans(p@),
            out@.len() == i,
            forall|k: int|
                0 <= k < spans(p@).len() ==> {
                    let q = #[trigger] spans(p@)[k];
                    0 <= q.0 < q.1 <= p@.len()
                },
            forall|k: int| 0 <= k < i ==> (#[trigger] out@[k])@ == comps(p@)[k],
        decreases at@.len() - i,
    {
        assert(spans(p@)[i as int] == span_view(at@)[i as int]);
        let (a, z) = at[i];
        out.push(text_of(&v, a, z));
        i += 1;
    }
    assert(crate::text::views(out@) =~= comps(p@));
    out
}

/// Whether a path is absolute.
pub fn is_absolute(p: &str) -> (r: bool)
    ensures
        r == absolute(p@),
{
    let v = chars_of(p);
    v.len() > 0 && v[0] == '/'
}

/// Whether `p` is `base` or lies below it.
pub fn is_within(p: &str, base: &str) -> (r: bool)
    ensures
        r == within(p@, base@),
{
    let a = components(p);
    let b = components(base);
    if b.len() > a.len() {
        assert(comps(base@).len() == b@.len() && comps(p@).len() == a@.len());
        return false;
    }
    let mut i: usize = 0;
    while i < b.len()
        invariant
            i <= b@.len() <= a@.len(),
            crate::text::views(a@) == comps(p@),
            crate::text::views(b@) == comps(base@),
            forall|k: int| 0 <= k < i ==> comps(p@)[k] == comps(base@)[k],
        decreases b@.len() - i,
    {
        assert(crate::text::views(a@)[i as int] == a@[i as int]@);
        assert(crate::text::views(b@)[i as int] == b@[i as int]@);
        if !same(a[i].as_str(), b[i].as_str()) {
            return false;
        }
        i += 1;
    }
    assert(comps(base@).len() == b@.len() && comps(p@).len() == a@.len());
    assert(comps(base@) =~= comps(p@).subrange(0, comps(base@).len() as int));
    true
}

/// Whether two texts name the same path.
pub fn same_path(a: &str, b: &str) -> (r: bool)
    ensures
        r == (comps(a@) == comps(b@)),
{
    let r = is_within(a, b) && is_within(b, a);
    proof {
        if within(a@, b@) && within(b@, a@) {
            assert(comps(a@) =~= comps(b@));
        }
        if comps(a@) == comps(b@) {
            assert(comps(a@) =~= comps(b@).subrange(0, comps(a@).len() as int));
        }
    }
    r
}

/// Whether `list` names the path `p`.
pub fn names_path(list: &Vec<String>, p: &str) -> (r: bool)
    ensures
        r == exists|i: int| 0 <= i < list@.len() && comps(#[trigger] list@[i]@) == comps(p@),
{
    let mut i: usize = 0;
    while i < list.len()
        invariant
            i <= list@.len(),
            forall|k: int| 0 <= k < i ==> comps(#[trigger] list@[k]@) != comps(p@),
        decreases list@.len() - i,
    {
        if same_path(list[i].as_str(), p) {
            return true;
        }
        i += 1;
    }
    false
}

/// Whether `p` lies strictly below one of `roots`: inside it, and not the
/// root itself.
pub fn path_is_strictly_inside(p: &str, roots: &Vec<String>) -> (r: bool)
    ensures
        r == below_any(p@, crate::text::views(roots@)),
{
    let ghost vs = crate::text::views(roots@);
    let mut i: usize = 0;
    while i < roots.len()
        invariant
            i <= roots@.len(),
            vs == crate::text::views(roots@),
            forall|k: int| 0 <= k < i ==> !below(p@, #[trigger] vs[k]),
        decreases roots@.len() - i,
    {
        assert(vs[i as int] == roots@[i as int]@);
        if is_within(p, roots[i].as_str()) && !same_path(p, roots[i].as_str()) {
            assert(below(p@, vs[i as int]));
            return true;
        }
        i += 1;
    }
    false
}

/// `p` relative to `base`, if `p` is `base` or lies below it.
pub fn strip_base(p: &str, base: &str) -> (r: Option<String>)
    ensures
        crate::text::opt_view(r) == relative_to(p@, base@),
{
    if !is_within(p, base) {
        return None;
    }
    let n: usize = components(base).len();
    assert(n == comps(base@).len());
    let v = chars_of(p);
    let at = spans_of(&v);
    assert(at@.len() == spans(p@).len());
    proof {
        lemma_spans(p@);
    }
    if n < at.len() {
        assert(spans(p@)[n as int] == span_view(at@)[n as int]);
        assert(spans(p@).last() == span_view(at@)[at@.len() - 1]);
        let a: usize = at[n].0;
        let z: usize = at[at.len() - 1].1;
        assert(a <= z) by {
            if n < at@.len() - 1 {
                assert(spans(p@)[n as int].1 <= spans(p@)[at@.len() - 1].0);
            }
        }
        Some(text_of(&v, a, z))
    } else {
        Some(String::new())
    }
}

/// `b` seen from `a`.
pub fn join(a: &str, b: &str) -> (r: String)
    ensures
        r@ == joined(a@, b@),
{
    let v = chars_of(a);
    if is_absolute(b) {
        b.to_owned()
    } else {
        let mut out = a.to_owned();
        if v.len() > 0 && v[v.len() - 1] != '/' {
            out.push('/');
        }
        out.append(b);
        out
    }
}

/// The path without its last component.
pub fn parent(p: &str) -> (r: Option<String>)
    ensures
        crate::text::opt_view(r) == parent_of(p@),
{
    let v = chars_of(p);
    let at = spans_of(&v);
    assert(at@.len() == spans(p@).len());
    if at.len() == 0 || (v.len() > 0 && v[0] == '/' && at.len() == 1) {
        return None;
    }
    if at.len() == 1 {
        return Some(String::new());
    }
    let k: usize = at.len() - 2;
    proof {
        lemma_spans(p@);
        assert(spans(p@)[k as int] == span_view(at@)[k as int]);
        assert(p@.take(at@[k as int].1 as int) =~= p@.subrange(0, at@[k as int].1 as int));
    }
    Some(text_of(&v, 0, at[k].1))
}

/// The last component, where it is a name.
pub fn file_name(p: &str) -> (r: Option<String>)
    ensures
        crate::text::opt_view(r) == name_of_path(p@),
{
    let mut c = components(p);
    assert(comps(p@).len() == c@.len());
    if c.len() == 0 {
        return None;
    }
    let k: usize = c.len() - 1;
    assert(comps(p@).last() == crate::text::views(c@)[k as int]);
    let last = chars_of(c[k].as_str());
    if last.len() == 1 && (last[0] == '/' || last[0] == '.') {
        assert(last@ =~= seq!['/'] || last@ =~= seq!['.']);
        return None;
    }
    if last.len() == 2 && last[0] == '.' && last[1] == '.' {
        assert(last@ =~= seq!['.', '.']);
        return None;
    }
    Some(c.swap_remove(k))
}

/// Where a file name's extension begins.
fn dot_position(v: &Vec<char>) -> (r: Option<usize>)
    ensures
        match r {
            Some(i) => dot_at(v@) == Some(i as int) && 0 < i < v@.len(),
            None => dot_at(v@) is None,
        },
{
    let mut i: usize = v.len();
    assert(v@.take(v@.len() as int) =~= v@);
    while i > 0
        invariant
            i <= v@.len(),
            last_of(v@, '.') == last_of(v@.take(i as int), '.'),
        decreases i,
    {
        assert(v@.take(i as int).drop_last() =~= v@.take(i - 1));
        assert(v@.take(i as int).last() == v@[i - 1]);
        i -= 1;
        if v[i] == '.' {
            return if i == 0 {
                None
            } else {
                Some(i)
            };
        }
    }
    None
}

/// A file name without its extension.
pub fn name_stem(name: &str) -> (r: String)
    ensures
        r@ == stem_of_name(name@),
{
    let v = chars_of(name);
    match dot_position(&v) {
        Some(i) => {
            assert(name@.take(i as int) =~= name@.subrange(0, i as int));
            text_of(&v, 0, i)
        },
        None => name.to_owned(),
    }
}

/// The extension of a file name.
pub fn name_extension(name: &str) -> (r: Option<String>)
    ensures
        crate::text::opt_view(r) == ext_of_name(name@),
{
    let v = chars_of(name);
    let n: usize = v.len();
    match dot_position(&v) {
        Some(i) => {
            assert(name@.skip(i + 1) =~= name@.subrange(i + 1, name@.len() as int));
            Some(text_of(&v, i + 1, n))
        },
        None => None,
    }
}

/// The stem of a path's file name.
pub fn file_stem(p: &str) -> (r: Option<String>)
    ensures
        crate::text::opt_view(r) == stem_of_path(p@),
{
    match file_name(p) {
        Some(n) => Some(name_stem(n.as_str())),
        None => None,
    }
}

/// The extension of a path's file name.
pub fn extension(p: &str) -> (r: Option<String>)
    ensures
        crate::text::opt_view(r) == ext_of_path(p@),
{
    match file_name(p) {
        Some(n) => name_extension(n.as_str()),
        None => None,
    }
}

// ---------------------------------------------------------------------------
// Stored paths

/// `p` relative to `base` where it lies strictly below it.
pub open spec fn inner(p: Seq<char>, base: Seq<char>) -> Option<Seq<char>> {
    match relative_to(p, base) {
        Some(r) => if r.len() == 0 { None } else { Some(r) },
        None => None,
    }
}

/// The form in which the database stores `p`.
pub open spec fn stored_form(
    p: Seq<char>,
    music_dir: Seq<char>,
    real_path: Option<Seq<char>>,
    real_music_dir: Option<Seq<char>>,
) -> Seq<char> {
    if !absolute(p) || music_dir.len() == 0 {
        p
    } else if inner(p, music_dir) is Some {
        inner(p, music_dir)->0
    } else if real_path is Some && real_music_dir is Some && inner(real_path->0, real_music_dir->0) is Some {
        inner(real_path->0, real_music_dir->0)->0
    } else {
        p
    }
}

/// `p` relative to `prefix` where it lies strictly below it.
pub fn strip_non_empty(p: &str, prefix: &str) -> (r: Option<String>)
    ensures
        crate::text::opt_view(r) == inner(p@, prefix@),
{
    match strip_base(p, prefix) {
        Some(rel) => if rel.as_str().is_empty() {
            None
        } else {
            Some(rel)
        },
        None => None,
    }
}

/// The form in which the database stores `path`.
///
/// An absolute path below `music_dir` becomes relative to it, component by
/// component, so that a music directory `/foo/Music` does not claim what lies
/// in `/foo/Music Backup`. Any other path is stored as it is. Where the
/// spelling alone shows no prefix, the resolved spellings of the path and of
/// the music directory are compared, where both could be resolved.
pub fn to_db_path(
    path: &str,
    music_dir: &str,
    real_path: &Option<String>,
    real_music_dir: &Option<String>,
) -> (r: String)
    ensures
        r@ == stored_form(
            path@,
            music_dir@,
            crate::text::opt_view(*real_path),
            crate::text::opt_view(*real_music_dir),
        ),
{
    if !is_absolute(path) || music_dir.is_empty() {
        return path.to_owned();
    }
    if let Some(rel) = strip_non_empty(path, music_dir) {
        return rel;
    }
    if let (Some(rp), Some(rm)) = (real_path, real_music_dir) {
        if let Some(rel) = strip_non_empty(rp.as_str(), rm.as_str()) {
            return rel;
        }
    }
    path.to_owned()
}

/// The path that a stored path stands for: an absolute one as it is, a
/// relative one below `music_dir`.
pub fn from_db_path(stored: &str, music_dir: &str) -> (r: String)
    ensures
        r@ == joined(music_dir@, stored@),
{
    join(music_dir, stored)
}

proof fn lemma_inner(p: Seq<char>, base: Seq<char>)
    requires
        base.len() > 0,
        inner(p, base) is Some,
    ensures
        below(p, base),
        comps(inner(p, base)->0) == comps(p).skip(comps(base).len() as int),
        !absolute(inner(p, base)->0),
        !dot_first(inner(p, base)->0),
{
    lemma_spans(base);
    let n = comps(base).len() as int;
    assert(n == spans(base).len());
    assert(comps(p).len() == spans(p).len());
    assert(0 < n < spans(p).len());
    lemma_tail(p, n);
}

proof fn lemma_below_is_inner(p: Seq<char>, base: Seq<char>)
    requires
        base.len() > 0,
        below(p, base),
    ensures
        inner(p, base) is Some,
{
    lemma_spans(base);
    let n = comps(base).len() as int;
    assert(comps(p).len() == spans(p).len());
    assert(n < comps(p).len()) by {
        if n == comps(p).len() {
            assert(comps(base) =~= comps(p));
        }
    }
    lemma_tail(p, n);
}

/// Storing an absolute path and reading it back names the same path, whatever
/// the music directory is.
pub proof fn law_stored_path_round_trip(p: Seq<char>, music_dir: Seq<char>)
    requires
        absolute(p),
    ensures
        comps(joined(music_dir, stored_form(p, music_dir, None, None))) == comps(p),
{
    if music_dir.len() > 0 && inner(p, music_dir) is Some {
        lemma_inner(p, music_dir);
        let rest = inner(p, music_dir)->0;
        lemma_joined(music_dir, rest);
        assert(comps(music_dir) + comps(p).skip(comps(music_dir).len() as int) =~= comps(p));
    }
}

/// A path stored below one music directory resolves below any other one, with
/// the same components after the prefix: moving the library needs only a new
/// music directory.
pub proof fn law_stored_path_moves_with_library(
    p: Seq<char>,
    before: Seq<char>,
    after: Seq<char>,
    real_path: Option<Seq<char>>,
    real_music_dir: Option<Seq<char>>,
)
    requires
        absolute(p),
        before.len() > 0,
        after.len() > 0,
        below(p, before),
    ensures
        ({
            let resolved = joined(after, stored_form(p, before, real_path, real_music_dir));
            comps(resolved) == comps(after) + comps(p).skip(comps(before).len() as int) && below(
                resolved,
                after,
            )
        }),
{
    lemma_below_is_inner(p, before);
    lemma_inner(p, before);
    let rest = inner(p, before)->0;
    lemma_joined(after, rest);
    let resolved = joined(after, rest);
    assert(comps(after) =~= comps(resolved).subrange(0, comps(after).len() as int));
    assert(comps(resolved).len() > comps(after).len()) by {
        lemma_spans(rest);
        assert(comps(rest).len() == spans(rest).len());
    }
}

/// A path outside the music directory, or the music directory itself, is
/// stored as it is and resolves to itself under every music directory.
pub proof fn law_outside_path_is_kept(p: Seq<char>, music_dir: Seq<char>, other: Seq<char>)
    requires
        absolute(p),
        music_dir.len() > 0,
        !below(p, music_dir),
    ensures
        stored_form(p, music_dir, None, None) == p,
        joined(other, p) == p,
{
    if inner(p, music_dir) is Some {
        lemma_inner(p, music_dir);
    }
}

/// Where only the resolved spellings show that a path lies in the library, the
/// stored form resolves below the music directory as spelled.
pub proof fn law_resolved_spelling_is_stored_relative(
    p: Seq<char>,
    music_dir: Seq<char>,
    real_path: Seq<char>,
    real_music_dir: Seq<char>,
)
    requires
        absolute(p),
        music_dir.len() > 0,
        real_music_dir.len() > 0,
        !below(p, music_dir),
        below(real_path, real_music_dir),
    ensures
        comps(
            joined(music_dir, stored_form(p, music_dir, Some(real_path), Some(real_music_dir))),
        ) == comps(music_dir) + comps(real_path).skip(comps(real_music_dir).len() as int),
{
    if inner(p, music_dir) is Some {
        lemma_inner(p, music_dir);
    }
    lemma_below_is_inner(real_path, real_music_dir);
    lemma_inner(real_path, real_music_dir);
    lemma_joined(music_dir, inner(real_path, real_music_dir)->0);
}

/// A stored form is its own stored form: rewriting the paths of a library a
/// second time changes nothing.
pub proof fn law_storing_again_changes_nothing(
    p: Seq<char>,
    music_dir: Seq<char>,
    real_path: Option<Seq<char>>,
    real_music_dir: Option<Seq<char>>,
)
    requires
        real_music_dir is Some ==> real_music_dir->0.len() > 0,
    ensures
        ({
            let s = stored_form(p, music_dir, real_path, real_music_dir);
            stored_form(s, music_dir, real_path, real_music_dir) == s
        }),
{
    if absolute(p) && music_dir.len() > 0 {
        if inner(p, music_dir) is Some {
            lemma_inner(p, music_dir);
        } else if real_path is Some && real_music_dir is Some && inner(
            real_path->0,
            real_music_dir->0,
        ) is Some {
            lemma_inner(real_path->0, real_music_dir->0);
        }
    }
}


// ---------------------------------------------------------------------------
// Laws of names

/// A file joined to a directory has its name behind the components of the
/// directory, with a slash between them where the directory ends in none.
pub proof fn law_joined_names_stand_in_their_directory(dir: Seq<char>, name: Seq<char>)
    requires
        dir.len() > 0,
        name.len() > 2,
        !name.contains('/'),
    ensures
        comps(joined(dir, name)) == comps(dir).push(name),
        dir.last() != '/' ==> joined(dir, name) == dir + seq!['/'] + name,
{
    lemma_one_component(name);
    lemma_joined(dir, name);
    assert(comps(dir) + seq![name] =~= comps(dir).push(name));
    assert(dir.push('/') + name =~= dir + seq!['/'] + name);
}

/// A path is named by its last component, and lies within what the ones
/// before it make up.
pub proof fn law_the_last_component_is_the_name(p: Seq<char>, dir: Seq<char>, name: Seq<char>)
    requires
        comps(p) == comps(dir).push(name),
        name.len() > 2,
    ensures
        name_of_path(p) == Some(name),
        within(p, dir),
        below(p, dir),
        !within(dir, p),
        comps(dir).len() > 0 && parent_of(p) is Some ==> comps(parent_of(p)->0) == comps(dir),
{
    let c = comps(p);
    assert(c.last() == name);
    assert(c.take(comps(dir).len() as int) =~= comps(dir));
    assert(c.drop_last() =~= comps(dir));
    assert(name != seq!['/'] && name != seq!['.'] && name != seq!['.', '.']);
    if parent_of(p) is Some {
        law_parent_drops_the_last_component(p);
    }
}

/// A file name is its stem, a dot and its extension: the last dot counts,
/// and a name without a dot behind its first character has no extension.
pub proof fn law_extensions_stand_behind_the_last_dot(stem: Seq<char>, ext: Seq<char>)
    requires
        stem.len() > 0,
        !ext.contains('.'),
    ensures
        ext_of_name(stem + seq!['.'] + ext) == Some(ext),
        stem_of_name(stem + seq!['.'] + ext) == stem,
        ext_of_name(ext) is None,
        stem_of_name(ext) == ext,
        ext_of_name(seq!['.'] + ext) is None,
{
    let name = stem + seq!['.'] + ext;
    let n = stem.len() as int;
    lemma_last_of_is(name, n);
    assert(name.skip(n + 1) =~= ext);
    assert(name.take(n) =~= stem);
    lemma_last_of_none(ext);
    lemma_last_of_is(seq!['.'] + ext, 0);
}

proof fn lemma_last_of_is(s: Seq<char>, n: int)
    requires
        0 <= n < s.len(),
        s[n] == '.',
        !s.skip(n + 1).contains('.'),
    ensures
        last_of(s, '.') == Some(n),
    decreases s.len(),
{
    if n < s.len() - 1 {
        let rest = s.skip(n + 1);
        assert(rest[rest.len() - 1] == s.last());
        assert(rest.contains(s.last()));
        let d = s.drop_last();
        assert(!d.skip(n + 1).contains('.')) by {
            if d.skip(n + 1).contains('.') {
                let k = d.skip(n + 1).index_of('.');
                assert(rest[k] == '.');
            }
        }
        lemma_last_of_is(d, n);
    }
}

proof fn lemma_last_of_none(s: Seq<char>)
    requires
        !s.contains('.'),
    ensures
        last_of(s, '.') is None,
    decreases s.len(),
{
    if s.len() > 0 {
        assert(s[s.len() - 1] != '.');
        assert(!s.drop_last().contains('.')) by {
            if s.drop_last().contains('.') {
                assert(s[s.drop_last().index_of('.')] == '.');
            }
        }
        lemma_last_of_none(s.drop_last());
    }
}

/// A path below a base, seen from the base, has the components that the base
/// does not have; seen from elsewhere it has none of its own.
pub proof fn law_relative_paths_leave_out_the_base(p: Seq<char>, base: Seq<char>)
    requires
        comps(base).len() > 0,
    ensures
        (comps(p).len() > comps(base).len() && comps(p).take(comps(base).len() as int) == comps(
            base,
        )) ==> relative_to(p, base) is Some && comps(relative_to(p, base)->0) == comps(p).skip(
            comps(base).len() as int,
        ),
        (comps(p).len() < comps(base).len() || comps(p).take(comps(base).len() as int) != comps(
            base,
        )) ==> relative_to(p, base) is None,
{
    lemma_spans(p);
    assert(comps(p).len() == spans(p).len());
    if comps(p).len() > comps(base).len() && comps(p).take(comps(base).len() as int) == comps(base) {
        lemma_tail(p, comps(base).len() as int);
    }
}

} // verus!
