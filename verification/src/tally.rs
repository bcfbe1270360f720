//! Counting how often each key occurs, with the keys in order.
use crate::text::{text_rank, views};
use vstd::prelude::*;

verus! {

/// A key, made of one or more texts, and how often it occurs.
#[derive(Debug)]
pub struct Tally {
    pub key: Vec<String>,
    pub count: usize,
}

/// The order of two keys, text by text.
pub open spec fn key_order(a: Seq<Seq<char>>, b: Seq<Seq<char>>) -> int
    decreases a.len(),
{
    if a.len() == 0 {
        if b.len() == 0 { 0 } else { -1 }
    } else if b.len() == 0 {
        1
    } else {
        crate::text::lex(
            crate::text::text_order(a[0], b[0]),
            key_order(a.skip(1), b.skip(1)),
        )
    }
}

/// How often `key` is among `keys`.
pub open spec fn occurrences(keys: Seq<Seq<Seq<char>>>, key: Seq<Seq<char>>) -> nat
    decreases keys.len(),
{
    if keys.len() == 0 {
        0
    } else {
        occurrences(keys.drop_last(), key) + if keys.last() == key { 1nat } else { 0nat }
    }
}

/// The keys as sequences of texts.
pub open spec fn key_views(keys: Seq<Vec<String>>) -> Seq<Seq<Seq<char>>> {
    keys.map_values(|k: Vec<String>| views(k@))
}

/// Whether `r` lists the distinct keys in order, each with the number of its
/// occurrences.
pub open spec fn tallied(r: Seq<Tally>, keys: Seq<Seq<Seq<char>>>) -> bool {
    &&& forall|i: int, j: int|
        0 <= i < j < r.len() ==> key_order(views((#[trigger] r[i]).key@), views((#[trigger] r[j]).key@)) < 0
    &&& forall|i: int|
        0 <= i < r.len() ==> (#[trigger] r[i]).count == occurrences(keys, views(r[i].key@))
            && r[i].count > 0
    &&& forall|k: int|
        0 <= k < keys.len() ==> exists|i: int|
            0 <= i < r.len() && views((#[trigger] r[i]).key@) == #[trigger] keys[k]
}

proof fn lemma_key_order_flip(a: Seq<Seq<char>>, b: Seq<Seq<char>>)
    ensures
        key_order(a, b) == -key_order(b, a),
        key_order(a, b) == 0 <==> a == b,
    decreases a.len(),
{
    if a.len() > 0 && b.len() > 0 {
        crate::text::lemma_text_order_flip(a[0], b[0]);
        lemma_key_order_flip(a.skip(1), b.skip(1));
        if a[0] == b[0] && a.skip(1) == b.skip(1) {
            assert(a =~= seq![a[0]] + a.skip(1));
            assert(b =~= seq![b[0]] + b.skip(1));
        }
    } else if a.len() == 0 && b.len() == 0 {
        assert(a =~= b);
    }
}

proof fn lemma_key_order_transitive(a: Seq<Seq<char>>, b: Seq<Seq<char>>, c: Seq<Seq<char>>)
    requires
        key_order(a, b) < 0,
        key_order(b, c) < 0,
    ensures
        key_order(a, c) < 0,
    decreases a.len(),
{
    if a.len() > 0 && b.len() > 0 && c.len() > 0 {
        crate::text::lemma_text_order_flip(a[0], b[0]);
        crate::text::lemma_text_order_flip(b[0], c[0]);
        crate::text::lemma_text_order_transitive(a[0], b[0], c[0]);
        if a[0] == b[0] && b[0] == c[0] {
            lemma_key_order_transitive(a.skip(1), b.skip(1), c.skip(1));
        }
    }
}

/// The order of two keys.
fn key_rank(a: &Vec<String>, b: &Vec<String>) -> (r: i8)
    ensures
        r == key_order(views(a@), views(b@)),
{
    let ghost x = views(a@);
    let ghost y = views(b@);
    let mut i: usize = 0;
    assert(x.skip(0) =~= x);
    assert(y.skip(0) =~= y);
    while i < a.len() && i < b.len()
        invariant
            i <= a@.len(),
            i <= b@.len(),
            x == views(a@),
            y == views(b@),
            key_order(x, y) == key_order(x.skip(i as int), y.skip(i as int)),
        decreases a@.len() - i,
    {
        assert(x.skip(i as int)[0] == a@[i as int]@);
        assert(y.skip(i as int)[0] == b@[i as int]@);
        let o = text_rank(a[i].as_str(), b[i].as_str());
        if o != 0 {
            return o;
        }
        assert(x.skip(i as int).skip(1) =~= x.skip(i + 1));
        assert(y.skip(i as int).skip(1) =~= y.skip(i + 1));
        i += 1;
    }
    if i < a.len() {
        1
    } else if i < b.len() {
        -1
    } else {
        0
    }
}

proof fn lemma_occurrences_bound(keys: Seq<Seq<Seq<char>>>, key: Seq<Seq<char>>)
    ensures
        occurrences(keys, key) <= keys.len(),
        occurrences(keys, key) > 0 ==> keys.contains(key),
        keys.contains(key) ==> occurrences(keys, key) > 0,
    decreases keys.len(),
{
    if keys.len() > 0 {
        lemma_occurrences_bound(keys.drop_last(), key);
        if keys.drop_last().contains(key) {
            let i = choose|i: int| 0 <= i < keys.drop_last().len() && keys.drop_last()[i] == key;
            assert(keys[i] == key);
        }
        if keys.last() == key {
            assert(keys[keys.len() - 1] == key);
        }
        if keys.contains(key) && keys.last() != key {
            let i = choose|i: int| 0 <= i < keys.len() && keys[i] == key;
            assert(keys.drop_last()[i] == key);
        }
    }
}

/// Counts one more key.
fn count_key(out: &mut Vec<Tally>, key: Vec<String>, Ghost(before): Ghost<Seq<Seq<Seq<char>>>>)
    requires
        tallied(old(out)@, before),
        before.len() < usize::MAX,
    ensures
        tallied(final(out)@, before.push(views(key@))),
{
    let ghost kv = views(key@);
    let ghost now = before.push(kv);
    let ghost was = out@;
    proof {
        assert(now.drop_last() =~= before);
        assert forall|q: Seq<Seq<char>>| #[trigger]
            occurrences(now, q) == occurrences(before, q) + (if q == kv { 1nat } else { 0nat }) by {}
        lemma_occurrences_bound(before, kv);
    }
    let mut at: usize = 0;
    while at < out.len() && key_rank(&out[at].key, &key) < 0
        invariant
            at <= out@.len(),
            out@ == was,
            kv == views(key@),
            forall|k: int| 0 <= k < at ==> key_order(views((#[trigger] was[k]).key@), kv) < 0,
        decreases out@.len() - at,
    {
        at += 1;
    }
    if at < out.len() && key_rank(&out[at].key, &key) == 0 {
        proof {
            lemma_key_order_flip(views(was[at as int].key@), kv);
        }
        let n: usize = out[at].count;
        let old_entry = out.remove(at);
        let entry = Tally { key: old_entry.key, count: n + 1 };
        out.insert(at, entry);
        proof {
            assert(out@ =~= was.update(at as int, entry));
            assert forall|i: int| 0 <= i < out@.len() implies (#[trigger] out@[i]).count == occurrences(
                now,
                views(out@[i].key@),
            ) && out@[i].count > 0 by {
                if i != at {
                    assert(out@[i] == was[i]);
                    if i < at {
                        assert(key_order(views(was[i].key@), views(was[at as int].key@)) < 0);
                    } else {
                        assert(key_order(views(was[at as int].key@), views(was[i].key@)) < 0);
                    }
                    lemma_key_order_flip(views(was[i].key@), kv);
                }
            }
            assert forall|k: int| 0 <= k < now.len() implies exists|i: int|
                0 <= i < out@.len() && views((#[trigger] out@[i]).key@) == #[trigger] now[k] by {
                if k < before.len() {
                    assert(now[k] == before[k]);
                    let i = choose|i: int|
                        0 <= i < was.len() && views((#[trigger] was[i]).key@) == before[k];
                    assert(views(out@[i].key@) == now[k]);
                } else {
                    assert(views(out@[at as int].key@) == now[k]);
                }
            }
            assert forall|i: int, j: int| 0 <= i < j < out@.len() implies key_order(
                views((#[trigger] out@[i]).key@),
                views((#[trigger] out@[j]).key@),
            ) < 0 by {
                assert(views(out@[i].key@) == views(was[i].key@));
                assert(views(out@[j].key@) == views(was[j].key@));
            }
        }
    } else {
        proof {
            assert forall|k: int| at <= k < was.len() implies key_order(
                kv,
                views((#[trigger] was[k]).key@),
            ) < 0 by {
                lemma_key_order_flip(views(was[at as int].key@), kv);
                if k > at {
                    assert(key_order(views(was[at as int].key@), views(was[k].key@)) < 0);
                    lemma_key_order_transitive(
                        kv,
                        views(was[at as int].key@),
                        views(was[k].key@),
                    );
                }
            }
            assert(occurrences(before, kv) == 0) by {
                if occurrences(before, kv) > 0 {
                    let k = choose|k: int| 0 <= k < before.len() && before[k] == kv;
                    let i = choose|i: int|
                        0 <= i < was.len() && views((#[trigger] was[i]).key@) == before[k];
                    lemma_key_order_flip(kv, kv);
                    assert(views(was[i].key@) == kv);
                }
            }
        }
        out.insert(at, Tally { key, count: 1 });
        proof {
            assert forall|i: int| 0 <= i < out@.len() implies (#[trigger] out@[i]).count == occurrences(
                now,
                views(out@[i].key@),
            ) && out@[i].count > 0 by {
                lemma_key_order_flip(kv, kv);
                if i < at {
                    assert(out@[i] == was[i]);
                } else if i > at {
                    assert(out@[i] == was[i - 1]);
                }
            }
            assert forall|k: int| 0 <= k < now.len() implies exists|i: int|
                0 <= i < out@.len() && views((#[trigger] out@[i]).key@) == #[trigger] now[k] by {
                if k < before.len() {
                    assert(now[k] == before[k]);
                    let i = choose|i: int|
                        0 <= i < was.len() && views((#[trigger] was[i]).key@) == before[k];
                    let n = if i < at { i } else { i + 1 };
                    assert(out@[n] == was[i]);
                    assert(views(out@[n].key@) == now[k]);
                } else {
                    assert(views(out@[at as int].key@) == now[k]);
                }
            }
            assert forall|i: int, j: int| 0 <= i < j < out@.len() implies key_order(
                views((#[trigger] out@[i]).key@),
                views((#[trigger] out@[j]).key@),
            ) < 0 by {
                if i != at {
                    assert(out@[i] == was[if i < at { i } else { i - 1 }]);
                }
                if j != at {
                    assert(out@[j] == was[if j < at { j } else { j - 1 }]);
                }
            }
        }
    }
}

/// Counts the keys.
pub fn tally(keys: Vec<Vec<String>>) -> (r: Vec<Tally>)
    ensures
        tallied(r@, key_views(keys@)),
{
    let ghost all = key_views(keys@);
    let n: usize = keys.len();
    let mut out: Vec<Tally> = Vec::new();
    let mut i: usize = 0;
    while i < n
        invariant
            i <= n,
            n == keys@.len(),
            all == key_views(keys@),
            tallied(out@, all.take(i as int)),
        decreases n - i,
    {
        let key = crate::text::copy_all(&keys[i]);
        assert(all[i as int] == views(keys@[i as int]@));
        count_key(&mut out, key, Ghost(all.take(i as int)));
        i += 1;
        assert(all.take(i as int) =~= all.take(i - 1).push(all[i - 1]));
    }
    assert(all.take(i as int) =~= all);
    out
}


/// Keys are put in order by the first part in which they differ, and a key
/// comes before those that it begins.
pub proof fn law_the_first_part_that_differs_decides(
    a: Seq<Seq<char>>,
    b: Seq<Seq<char>>,
    k: int,
)
    requires
        0 <= k,
        k <= a.len(),
        k <= b.len(),
        a.take(k) == b.take(k),
    ensures
        k < a.len() && k < b.len() && crate::text::text_order(a[k], b[k]) < 0 ==> key_order(a, b)
            < 0 && key_order(b, a) > 0,
        k == a.len() && k < b.len() ==> key_order(a, b) < 0 && key_order(b, a) > 0,
        k == a.len() && k == b.len() ==> key_order(a, b) == 0,
    decreases a.len(),
{
    if k > 0 {
        assert(a.take(k)[0] == a[0] && b.take(k)[0] == b[0]);
        assert(a[0] == b[0]);
        crate::text::lemma_text_order_flip(a[0], b[0]);
        let (x, y) = (a.skip(1), b.skip(1));
        assert(x.take(k - 1) =~= a.take(k).skip(1));
        assert(y.take(k - 1) =~= b.take(k).skip(1));
        law_the_first_part_that_differs_decides(x, y, k - 1);
    } else if a.len() > 0 && b.len() > 0 {
        crate::text::lemma_text_order_flip(a[0], b[0]);
    }
}

/// A key is counted once for each time it occurs.
pub proof fn law_every_occurrence_is_counted(
    a: Seq<Seq<Seq<char>>>,
    b: Seq<Seq<Seq<char>>>,
    key: Seq<Seq<char>>,
)
    ensures
        occurrences(a + b, key) == occurrences(a, key) + occurrences(b, key),
        occurrences(seq![key], key) == 1,
        !a.contains(key) ==> occurrences(a, key) == 0,
    decreases a.len() + b.len(),
{
    let one = seq![key];
    assert(one.drop_last() =~= Seq::<Seq<Seq<char>>>::empty());
    assert(occurrences(one.drop_last(), key) == 0);
    if b.len() == 0 {
        assert(a + b =~= a);
        if a.len() > 0 && !a.contains(key) {
            assert(a[a.len() - 1] != key);
            assert(!a.drop_last().contains(key)) by {
                if a.drop_last().contains(key) {
                    assert(a[a.drop_last().index_of(key)] == key);
                }
            }
            law_every_occurrence_is_counted(a.drop_last(), b, key);
        }
    } else {
        law_every_occurrence_is_counted(a, b.drop_last(), key);
        assert((a + b).drop_last() =~= a + b.drop_last());
        assert((a + b).last() == b.last());
    }
}

} // verus!
