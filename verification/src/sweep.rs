//! Sweeping up directories that a move or a deletion has left empty.
//!
//! A sweep goes through directories, the deepest first. It asks for a
//! directory to be removed if it is empty, and on success climbs to its
//! parent. It never asks for one that is not strictly inside a managed root:
//! roots themselves, and whatever lies above or beside them, are not touched.
use crate::paths::{components, parent, path_is_strictly_inside};
use crate::text::{text_rank, views};
use vstd::prelude::*;

verus! {

/// The kind of a component: root, current directory, parent, name.
pub open spec fn kind(c: Seq<char>) -> int {
    if c == seq!['/'] { 0 } else if c == seq!['.'] { 1 } else if c == seq!['.', '.'] { 2 } else { 3 }
}

/// The order of two components.
pub open spec fn comp_order(a: Seq<char>, b: Seq<char>) -> int {
    crate::text::lex(crate::text::num_order(kind(a), kind(b)), crate::text::text_order(a, b))
}

/// The order of two component sequences, component by component.
pub open spec fn comps_order(a: Seq<Seq<char>>, b: Seq<Seq<char>>) -> int
    decreases a.len(),
{
    if a.len() == 0 {
        if b.len() == 0 { 0 } else { -1 }
    } else if b.len() == 0 {
        1
    } else {
        crate::text::lex(comp_order(a[0], b[0]), comps_order(a.skip(1), b.skip(1)))
    }
}

/// The order of two paths.
pub open spec fn path_order(a: Seq<char>, b: Seq<char>) -> int {
    comps_order(crate::paths::comps(a), crate::paths::comps(b))
}

/// Directories in descending order, with one more put in its place unless it
/// is there already.
pub open spec fn insert_dir(s: Seq<Seq<char>>, d: Seq<char>) -> Seq<Seq<char>>
    decreases s.len(),
{
    if s.len() == 0 || path_order(s.last(), d) > 0 {
        s.push(d)
    } else if path_order(s.last(), d) == 0 {
        s
    } else {
        insert_dir(s.drop_last(), d).push(s.last())
    }
}

/// The distinct directories of `s` in descending order, so that a directory
/// comes before the one it lies in.
pub open spec fn deepest_first(s: Seq<Seq<char>>) -> Seq<Seq<char>>
    decreases s.len(),
{
    if s.len() == 0 { s } else { insert_dir(deepest_first(s.drop_last()), s.last()) }
}

fn comp_kind(c: &str) -> (r: i8)
    ensures
        r == kind(c@),
{
    let v = crate::text::chars_of(c);
    if v.len() == 1 && v[0] == '/' {
        assert(c@ =~= seq!['/']);
        0
    } else if v.len() == 1 && v[0] == '.' {
        assert(c@ =~= seq!['.']);
        1
    } else if v.len() == 2 && v[0] == '.' && v[1] == '.' {
        assert(c@ =~= seq!['.', '.']);
        2
    } else {
        3
    }
}

/// The order of two paths.
pub fn path_rank(a: &str, b: &str) -> (r: i8)
    ensures
        r == path_order(a@, b@),
{
    let x = components(a);
    let y = components(b);
    let ghost cx = crate::paths::comps(a@);
    let ghost cy = crate::paths::comps(b@);
    let mut i: usize = 0;
    assert(cx.skip(0) =~= cx);
    assert(cy.skip(0) =~= cy);
    while i < x.len() && i < y.len()
        invariant
            i <= x@.len(),
            i <= y@.len(),
            views(x@) == cx,
            views(y@) == cy,
            path_order(a@, b@) == comps_order(cx.skip(i as int), cy.skip(i as int)),
        decreases x@.len() - i,
    {
        assert(cx.skip(i as int)[0] == views(x@)[i as int]);
        assert(cy.skip(i as int)[0] == views(y@)[i as int]);
        let kx = comp_kind(x[i].as_str());
        let ky = comp_kind(y[i].as_str());
        if kx < ky {
            return -1;
        }
        if kx > ky {
            return 1;
        }
        let o = text_rank(x[i].as_str(), y[i].as_str());
        if o != 0 {
            return o;
        }
        assert(cx.skip(i as int).skip(1) =~= cx.skip(i + 1));
        assert(cy.skip(i as int).skip(1) =~= cy.skip(i + 1));
        i += 1;
    }
    assert(cx.len() == x@.len() && cy.len() == y@.len());
    if i < x.len() {
        1
    } else if i < y.len() {
        -1
    } else {
        0
    }
}

proof fn lemma_insert_dir(s: Seq<Seq<char>>, d: Seq<char>, at: int)
    requires
        0 <= at <= s.len(),
        forall|k: int| at <= k < s.len() ==> path_order(#[trigger] s[k], d) < 0,
        at > 0 ==> path_order(s[at - 1], d) >= 0,
    ensures
        insert_dir(s, d) == if at > 0 && path_order(s[at - 1], d) == 0 {
            s
        } else {
            s.insert(at, d)
        },
    decreases s.len(),
{
    if at < s.len() {
        assert(s.last() == s[s.len() - 1]);
        lemma_insert_dir(s.drop_last(), d, at);
        if at > 0 && path_order(s[at - 1], d) == 0 {
            assert(s.drop_last().push(s.last()) =~= s);
        } else {
            assert(s.drop_last().insert(at, d).push(s.last()) =~= s.insert(at, d));
        }
    } else if at == 0 || path_order(s[at - 1], d) != 0 {
        assert(s.push(d) =~= s.insert(at, d));
    }
}

/// The distinct directories in descending order.
pub fn order_deepest_first(dirs: &Vec<String>) -> (r: Vec<String>)
    ensures
        views(r@) == deepest_first(views(dirs@)),
{
    let ghost dv = views(dirs@);
    let mut out: Vec<String> = Vec::new();
    let mut i: usize = 0;
    assert(views(out@) =~= deepest_first(dv.take(0)));
    while i < dirs.len()
        invariant
            i <= dirs@.len(),
            dv == views(dirs@),
            views(out@) == deepest_first(dv.take(i as int)),
        decreases dirs@.len() - i,
    {
        let ghost ov = views(out@);
        let mut at: usize = out.len();
        let mut found = false;
        while at > 0 && !found
            invariant
                i < dirs@.len(),
                dv == views(dirs@),
                ov == views(out@),
                at <= out@.len(),
                forall|k: int| at <= k < ov.len() ==> path_order(#[trigger] ov[k], dv[i as int]) < 0,
                found ==> at > 0 && path_order(ov[at - 1], dv[i as int]) >= 0,
            decreases at, (if found { 0int } else { 1int }),
        {
            assert(ov[at - 1] == out@[at - 1]@);
            if path_rank(out[at - 1].as_str(), dirs[i].as_str()) >= 0 {
                found = true;
            } else {
                at -= 1;
            }
        }
        proof {
            lemma_insert_dir(ov, dv[i as int], at as int);
            assert(dv.take(i + 1).drop_last() =~= dv.take(i as int));
        }
        let there = at > 0 && path_rank(out[at - 1].as_str(), dirs[i].as_str()) == 0;
        if !there {
            out.insert(at, dirs[i].clone());
            assert(views(out@) =~= ov.insert(at as int, dv[i as int]));
        }
        i += 1;
    }
    assert(dv.take(i as int) =~= dv);
    out
}

// ---------------------------------------------------------------------------
// The sweep

/// The next directory to try, and those to start from after it: the one at
/// hand if it lies strictly inside a root, else the first such one of those
/// that are left.
pub open spec fn settle(
    roots: Seq<Seq<char>>,
    at_hand: Option<Seq<char>>,
    left: Seq<Seq<char>>,
) -> (Option<Seq<char>>, Seq<Seq<char>>)
    decreases left.len(), (if at_hand is Some { 1int } else { 0int }),
{
    if at_hand is Some && crate::paths::below_any(at_hand->0, roots) {
        (at_hand, left)
    } else if left.len() == 0 {
        (None, left)
    } else {
        settle(roots, Some(left[0]), left.skip(1))
    }
}

/// A sweep under way.
#[derive(Debug)]
pub struct Sweep {
    roots: Vec<String>,
    dirs: Vec<String>,
    next: usize,
    current: Option<String>,
    cleaned: u32,
}

impl Sweep {
    /// The managed roots.
    pub closed spec fn roots(&self) -> Seq<Seq<char>> {
        views(self.roots@)
    }

    /// The directories still to start from.
    pub closed spec fn left(&self) -> Seq<Seq<char>> {
        views(self.dirs@).skip(self.next as int)
    }

    /// The directory to remove next if it is empty.
    pub closed spec fn at(&self) -> Option<Seq<char>> {
        crate::text::opt_view(self.current)
    }

    /// How many directories were removed.
    pub closed spec fn count(&self) -> u32 {
        self.cleaned
    }

    /// What always holds: the directory to remove lies strictly inside a root.
    pub closed spec fn wf(&self) -> bool {
        &&& self.next <= self.dirs@.len()
        &&& self.at() is Some ==> crate::paths::below_any(self.at()->0, self.roots())
    }

    /// Starts a sweep over `dirs`.
    pub fn start(dirs: &Vec<String>, roots: &Vec<String>) -> (r: Self)
        ensures
            r.wf(),
            r.roots() == views(roots@),
            r.count() == 0,
            (r.at(), r.left()) == settle(views(roots@), None, deepest_first(views(dirs@))),
    {
        let mut s = Sweep {
            roots: crate::text::copy_all(roots),
            dirs: order_deepest_first(dirs),
            next: 0,
            current: None,
            cleaned: 0,
        };
        assert(s.left() =~= deepest_first(views(dirs@)));
        s.settle_on(None);
        s
    }

    fn settle_on(&mut self, candidate: Option<String>)
        requires
            old(self).next <= old(self).dirs@.len(),
        ensures
            final(self).wf(),
            final(self).roots() == old(self).roots(),
            final(self).count() == old(self).count(),
            (final(self).at(), final(self).left()) == settle(
                old(self).roots(),
                crate::text::opt_view(candidate),
                old(self).left(),
            ),
    {
        let ghost start = (crate::text::opt_view(candidate), self.left());
        let ghost rs = self.roots();
        let mut c = candidate;
        loop
            invariant
                self.next <= self.dirs@.len(),
                self.roots() == rs,
                self.cleaned == old(self).cleaned,
                rs == old(self).roots(),
                start == (crate::text::opt_view(candidate), old(self).left()),
                settle(rs, start.0, start.1) == settle(
                    rs,
                    crate::text::opt_view(c),
                    self.left(),
                ),
            decreases self.dirs@.len() - self.next,
        {
            if let Some(d) = &c {
                if path_is_strictly_inside(d.as_str(), &self.roots) {
                    self.current = c;
                    return;
                }
            }
            if self.next == self.dirs.len() {
                self.current = None;
                return;
            }
            assert(self.left()[0] == self.dirs@[self.next as int]@);
            assert(self.left().skip(1) =~= views(self.dirs@).skip(self.next + 1));
            c = Some(self.dirs[self.next].clone());
            self.next = self.next + 1;
        }
    }

    /// The directory to remove next if it is empty; nothing when the sweep is
    /// done.
    pub fn pending(&self) -> (r: Option<String>)
        requires
            self.wf(),
        ensures
            crate::text::opt_view(r) == self.at(),
            r is Some ==> crate::paths::below_any((r->0)@, self.roots()),
    {
        match &self.current {
            Some(d) => Some(d.clone()),
            None => None,
        }
    }

    /// How many directories were removed.
    pub fn cleaned(&self) -> (r: u32)
        ensures
            r == self.count(),
    {
        self.cleaned
    }

    /// Takes in whether the pending directory was removed: if so, its parent
    /// is next, else the next directory to start from.
    pub fn report(&mut self, removed: bool)
        requires
            old(self).wf(),
            old(self).at() is Some,
        ensures
            final(self).wf(),
            final(self).roots() == old(self).roots(),
            final(self).count() == (if removed && old(self).count() < u32::MAX {
                (old(self).count() + 1) as u32
            } else {
                old(self).count()
            }),
            (final(self).at(), final(self).left()) == settle(
                old(self).roots(),
                if removed {
                    crate::paths::parent_of(old(self).at()->0)
                } else {
                    None
                },
                old(self).left(),
            ),
    {
        let mut above: Option<String> = None;
        if removed {
            if self.cleaned < u32::MAX {
                self.cleaned = self.cleaned + 1;
            }
            if let Some(d) = &self.current {
                above = parent(d.as_str());
            }
        }
        self.settle_on(above);
    }
}

/// A sweep only ever points at a directory strictly inside a managed root.
pub proof fn law_sweep_stays_inside_roots(
    roots: Seq<Seq<char>>,
    at_hand: Option<Seq<char>>,
    left: Seq<Seq<char>>,
)
    ensures
        settle(roots, at_hand, left).0 is Some ==> crate::paths::below_any(
            settle(roots, at_hand, left).0->0,
            roots,
        ),
        settle(roots, at_hand, left).1.len() <= left.len(),
    decreases left.len(), (if at_hand is Some { 1int } else { 0int }),
{
    if !(at_hand is Some && crate::paths::below_any(at_hand->0, roots)) && left.len() > 0 {
        law_sweep_stays_inside_roots(roots, Some(left[0]), left.skip(1));
    }
}

// ---------------------------------------------------------------------------
// Laws of order

proof fn lemma_comp_order(a: Seq<char>, b: Seq<char>, c: Seq<char>)
    ensures
        comp_order(a, b) == -comp_order(b, a),
        comp_order(a, b) == 0 <==> a == b,
        comp_order(a, b) <= 0 && comp_order(b, c) <= 0 ==> comp_order(a, c) <= 0,
        comp_order(a, b) <= 0 && comp_order(b, c) <= 0 && (comp_order(a, b) < 0 || comp_order(b, c)
            < 0) ==> comp_order(a, c) < 0,
{
    crate::text::lemma_text_order_flip(a, b);
    crate::text::lemma_text_order_flip(b, c);
    crate::text::lemma_text_order_flip(a, c);
    if crate::text::text_order(a, b) <= 0 && crate::text::text_order(b, c) <= 0 {
        crate::text::lemma_text_order_transitive(a, b, c);
    }
}

proof fn lemma_comps_order_flip(a: Seq<Seq<char>>, b: Seq<Seq<char>>)
    ensures
        comps_order(a, b) == -comps_order(b, a),
        comps_order(a, b) == 0 <==> a == b,
    decreases a.len(),
{
    if a.len() > 0 && b.len() > 0 {
        lemma_comp_order(a[0], b[0], b[0]);
        lemma_comps_order_flip(a.skip(1), b.skip(1));
        assert(a =~= seq![a[0]] + a.skip(1));
        assert(b =~= seq![b[0]] + b.skip(1));
    } else if a.len() == 0 && b.len() == 0 {
        assert(a =~= b);
    }
}

proof fn lemma_comps_order_transitive(a: Seq<Seq<char>>, b: Seq<Seq<char>>, c: Seq<Seq<char>>)
    requires
        comps_order(a, b) <= 0,
        comps_order(b, c) <= 0,
    ensures
        comps_order(a, c) <= 0,
        comps_order(a, b) < 0 || comps_order(b, c) < 0 ==> comps_order(a, c) < 0,
    decreases a.len(),
{
    if a.len() > 0 && b.len() > 0 && c.len() > 0 {
        lemma_comp_order(a[0], b[0], c[0]);
        lemma_comp_order(b[0], c[0], c[0]);
        if comp_order(a[0], b[0]) == 0 && comp_order(b[0], c[0]) == 0 {
            lemma_comps_order_transitive(a.skip(1), b.skip(1), c.skip(1));
        }
    }
}

/// The order of paths reversed.
pub proof fn lemma_path_order_flip(a: Seq<char>, b: Seq<char>)
    ensures
        path_order(a, b) == -path_order(b, a),
        path_order(a, b) == 0 <==> crate::paths::comps(a) == crate::paths::comps(b),
{
    lemma_comps_order_flip(crate::paths::comps(a), crate::paths::comps(b));
}

/// The order of paths is transitive.
pub proof fn lemma_path_order_transitive(a: Seq<char>, b: Seq<char>, c: Seq<char>)
    requires
        path_order(a, b) <= 0,
        path_order(b, c) <= 0,
    ensures
        path_order(a, c) <= 0,
        path_order(a, b) < 0 || path_order(b, c) < 0 ==> path_order(a, c) < 0,
{
    let (x, y, z) = (crate::paths::comps(a), crate::paths::comps(b), crate::paths::comps(c));
    lemma_comps_order_transitive(x, y, z);
}

proof fn lemma_prefix_sorts_first(a: Seq<Seq<char>>, b: Seq<Seq<char>>)
    requires
        a.is_prefix_of(b),
        a != b,
    ensures
        comps_order(a, b) < 0,
    decreases a.len(),
{
    if a.len() > 0 {
        assert(a[0] == b[0]);
        lemma_comp_order(a[0], b[0], b[0]);
        assert(a.skip(1).is_prefix_of(b.skip(1))) by {
            assert(b.skip(1).subrange(0, a.len() - 1) =~= a.skip(1));
        }
        if a.skip(1) == b.skip(1) {
            assert(a =~= b);
        }
        lemma_prefix_sorts_first(a.skip(1), b.skip(1));
    } else if b.len() == 0 {
        assert(a =~= b);
    }
}

/// A directory sorts before whatever lies below it, and files of one directory
/// sort by their names.
pub proof fn law_directories_sort_before_their_contents(a: Seq<char>, b: Seq<char>)
    ensures
        crate::paths::below(b, a) ==> path_order(a, b) < 0,
{
    if crate::paths::below(b, a) {
        lemma_prefix_sorts_first(crate::paths::comps(a), crate::paths::comps(b));
    }
}

proof fn lemma_insert_dir_facts(s: Seq<Seq<char>>, d: Seq<char>)
    requires
        forall|i: int, j: int|
            0 <= i < j < s.len() ==> path_order(#[trigger] s[i], #[trigger] s[j]) > 0,
    ensures
        ({
            let r = insert_dir(s, d);
            &&& forall|i: int, j: int|
                0 <= i < j < r.len() ==> path_order(#[trigger] r[i], #[trigger] r[j]) > 0
            &&& forall|p: Seq<char>| #[trigger] r.contains(p) ==> s.contains(p) || p == d
            &&& forall|p: Seq<char>| s.contains(p) ==> #[trigger] r.contains(p)
            &&& exists|k: int| 0 <= k < r.len() && path_order(#[trigger] r[k], d) == 0
        }),
    decreases s.len(),
{
    let r = insert_dir(s, d);
    lemma_path_order_flip(d, d);
    if s.len() == 0 || path_order(s.last(), d) > 0 {
        assert(r == s.push(d));
        assert forall|i: int, j: int| 0 <= i < j < r.len() implies path_order(
            #[trigger] r[i],
            #[trigger] r[j],
        ) > 0 by {
            if j == s.len() && i < s.len() - 1 {
                assert(path_order(s[i], s[s.len() - 1]) > 0);
                lemma_path_order_flip(s[i], s.last());
                lemma_path_order_flip(s.last(), d);
                lemma_path_order_transitive(d, s.last(), s[i]);
                lemma_path_order_flip(d, s[i]);
            }
        }
        assert(path_order(r[s.len() as int], d) == 0);
        assert forall|p: Seq<char>| s.contains(p) implies #[trigger] r.contains(p) by {
            assert(r[s.index_of(p)] == p);
        }
    } else if path_order(s.last(), d) == 0 {
        assert(path_order(r[s.len() - 1], d) == 0);
    } else {
        let t = s.drop_last();
        assert forall|i: int, j: int| 0 <= i < j < t.len() implies path_order(
            #[trigger] t[i],
            #[trigger] t[j],
        ) > 0 by {
            assert(t[i] == s[i] && t[j] == s[j]);
        }
        lemma_insert_dir_facts(t, d);
        let u = insert_dir(t, d);
        assert(r == u.push(s.last()));
        assert forall|i: int, j: int| 0 <= i < j < r.len() implies path_order(
            #[trigger] r[i],
            #[trigger] r[j],
        ) > 0 by {
            if j == u.len() {
                assert(u.contains(u[i]));
                if u[i] == d {
                    lemma_path_order_flip(d, s.last());
                } else {
                    let x = t.index_of(u[i]);
                    assert(path_order(s[x], s[s.len() - 1]) > 0);
                }
            } else {
                assert(r[i] == u[i] && r[j] == u[j]);
            }
        }
        assert forall|p: Seq<char>| #[trigger] r.contains(p) implies s.contains(p) || p == d by {
            let x = r.index_of(p);
            if x < u.len() {
                assert(u[x] == p);
                assert(u.contains(p));
                if t.contains(p) {
                    assert(s[t.index_of(p)] == p);
                }
            } else {
                assert(s[s.len() - 1] == p);
            }
        }
        assert forall|p: Seq<char>| s.contains(p) implies #[trigger] r.contains(p) by {
            let x = s.index_of(p);
            if x < t.len() {
                assert(t[x] == p);
                assert(t.contains(p));
                assert(u.contains(p));
                assert(r[u.index_of(p)] == p);
            } else {
                assert(r[u.len() as int] == p);
            }
        }
        let k = choose|k: int| 0 <= k < u.len() && path_order(#[trigger] u[k], d) == 0;
        assert(r[k] == u[k]);
    }
}

/// The directories of a sweep are gone through from the deepest: none comes
/// after a directory that it lies below, none is gone through twice, and none
/// is left out.
pub proof fn law_sweeps_go_from_the_deepest(s: Seq<Seq<char>>)
    ensures
        forall|i: int, j: int|
            0 <= i < j < deepest_first(s).len() ==> !crate::paths::within(
                #[trigger] deepest_first(s)[j],
                #[trigger] deepest_first(s)[i],
            ),
        forall|p: Seq<char>| #[trigger] deepest_first(s).contains(p) ==> s.contains(p),
        forall|k: int|
            0 <= k < s.len() ==> exists|i: int|
                0 <= i < deepest_first(s).len() && crate::paths::comps(
                    #[trigger] deepest_first(s)[i],
                ) == crate::paths::comps(#[trigger] s[k]),
{
    lemma_deepest_first(s);
    let r = deepest_first(s);
    assert forall|i: int, j: int| 0 <= i < j < r.len() implies !crate::paths::within(
        #[trigger] r[j],
        #[trigger] r[i],
    ) by {
        assert(path_order(r[i], r[j]) > 0);
        if crate::paths::within(r[j], r[i]) {
            lemma_path_order_flip(r[i], r[j]);
            law_directories_sort_before_their_contents(r[i], r[j]);
        }
    }
    assert forall|k: int| 0 <= k < s.len() implies exists|i: int|
        0 <= i < r.len() && crate::paths::comps(#[trigger] r[i]) == crate::paths::comps(#[trigger] s[k]) by {
        let i = choose|i: int| 0 <= i < r.len() && path_order(#[trigger] r[i], s[k]) == 0;
        lemma_path_order_flip(r[i], s[k]);
    }
}

proof fn lemma_deepest_first(s: Seq<Seq<char>>)
    ensures
        forall|i: int, j: int|
            0 <= i < j < deepest_first(s).len() ==> path_order(
                #[trigger] deepest_first(s)[i],
                #[trigger] deepest_first(s)[j],
            ) > 0,
        forall|p: Seq<char>| #[trigger] deepest_first(s).contains(p) ==> s.contains(p),
        forall|k: int|
            0 <= k < s.len() ==> exists|i: int|
                0 <= i < deepest_first(s).len() && path_order(
                    #[trigger] deepest_first(s)[i],
                    #[trigger] s[k],
                ) == 0,
    decreases s.len(),
{
    if s.len() > 0 {
        let t = s.drop_last();
        lemma_deepest_first(t);
        lemma_insert_dir_facts(deepest_first(t), s.last());
        let r = deepest_first(s);
        assert forall|p: Seq<char>| #[trigger] r.contains(p) implies s.contains(p) by {
            if p == s.last() {
                assert(s[s.len() - 1] == p);
            } else {
                assert(deepest_first(t).contains(p));
                assert(t.contains(p));
                assert(s[t.index_of(p)] == p);
            }
        }
        assert forall|k: int| 0 <= k < s.len() implies exists|i: int|
            0 <= i < r.len() && path_order(#[trigger] r[i], #[trigger] s[k]) == 0 by {
            if k < t.len() {
                assert(t[k] == s[k]);
                let i = choose|i: int|
                    0 <= i < deepest_first(t).len() && path_order(
                        #[trigger] deepest_first(t)[i],
                        t[k],
                    ) == 0;
                let p = deepest_first(t)[i];
                assert(deepest_first(t).contains(p));
                assert(r.contains(p));
                let x = r.index_of(p);
                assert(path_order(r[x], s[k]) == 0);
            }
        }
    }
}

/// A sweep passes over nothing that it may remove: the directory at hand is
/// tried if it lies strictly inside a root, and of those that are left only
/// such are skipped as do not.
pub proof fn law_sweeps_skip_only_what_is_outside(
    roots: Seq<Seq<char>>,
    at_hand: Option<Seq<char>>,
    left: Seq<Seq<char>>,
    k: int,
)
    requires
        0 <= k < left.len(),
        crate::paths::below_any(left[k], roots),
    ensures
        at_hand is Some && crate::paths::below_any(at_hand->0, roots) ==> settle(
            roots,
            at_hand,
            left,
        ) == (at_hand, left),
        settle(roots, at_hand, left).0 == Some(left[k]) || settle(roots, at_hand, left).1.contains(
            left[k],
        ),
    decreases left.len(), (if at_hand is Some { 1int } else { 0int }),
{
    if !(at_hand is Some && crate::paths::below_any(at_hand->0, roots)) {
        if k > 0 {
            assert(left.skip(1)[k - 1] == left[k]);
            law_sweeps_skip_only_what_is_outside(roots, Some(left[0]), left.skip(1), k - 1);
        }
    } else {
        assert(left.contains(left[k]));
    }
}

} // verus!
