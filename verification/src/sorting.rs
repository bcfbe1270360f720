//! Stable sorting of positions by a given order.
use vstd::prelude::*;

verus! {

/// `le` is total and transitive on the positions below `n`.
pub open spec fn total_order(le: spec_fn(int, int) -> bool, n: int) -> bool {
    &&& forall|i: int, j: int|
        0 <= i < n && 0 <= j < n ==> #[trigger] le(i, j) || le(j, i)
    &&& forall|i: int, j: int, k: int|
        0 <= i < n && 0 <= j < n && 0 <= k < n && #[trigger] le(i, j) && #[trigger] le(j, k) ==> le(
            i,
            k,
        )
}

/// Whether `i` comes before `j` in the stable order by `le`: it sorts below
/// it, or it sorts equal and stands first.
pub open spec fn comes_before(le: spec_fn(int, int) -> bool, i: int, j: int) -> bool {
    le(i, j) && (le(j, i) ==> i < j)
}

/// `r` lists every position below `n` once, in the stable order by `le`.
pub open spec fn stably_ordered(r: Seq<usize>, le: spec_fn(int, int) -> bool, n: int) -> bool {
    &&& r.len() == n
    &&& forall|k: int| 0 <= k < r.len() ==> #[trigger] r[k] < n
    &&& r.no_duplicates()
    &&& forall|a: int, b: int|
        0 <= a < b < r.len() ==> comes_before(le, #[trigger] r[a] as int, #[trigger] r[b] as int)
}

/// The positions below `n` in the stable order by `le`, which `f` decides.
pub(crate) fn stable_order<F: Fn(usize, usize) -> bool>(
    n: usize,
    f: F,
    Ghost(le): Ghost<spec_fn(int, int) -> bool>,
) -> (r: Vec<usize>)
    requires
        total_order(le, n as int),
        forall|i: usize, j: usize| i < n && j < n ==> call_requires(f, (i, j)),
        forall|i: usize, j: usize, b: bool|
            i < n && j < n && call_ensures(f, (i, j), b) ==> b == le(i as int, j as int),
    ensures
        stably_ordered(r@, le, n as int),
{
    let mut r: Vec<usize> = Vec::new();
    let mut i: usize = 0;
    while i < n
        invariant
            i <= n,
            total_order(le, n as int),
            forall|i: usize, j: usize| i < n && j < n ==> call_requires(f, (i, j)),
            forall|i: usize, j: usize, b: bool|
                i < n && j < n && call_ensures(f, (i, j), b) ==> b == le(i as int, j as int),
            stably_ordered(r@, le, i as int),
        decreases n - i,
    {
        let mut at: usize = r.len();
        while at > 0
            invariant
                i < n,
                at <= r@.len(),
                total_order(le, n as int),
                forall|i: usize, j: usize| i < n && j < n ==> call_requires(f, (i, j)),
                forall|i: usize, j: usize, b: bool|
                    i < n && j < n && call_ensures(f, (i, j), b) ==> b == le(i as int, j as int),
                stably_ordered(r@, le, i as int),
                forall|k: int| at <= k < r@.len() ==> !le(#[trigger] r@[k] as int, i as int),
            ensures
                at <= r@.len(),
                forall|k: int| at <= k < r@.len() ==> !le(#[trigger] r@[k] as int, i as int),
                at > 0 ==> le(r@[at - 1] as int, i as int),
            decreases at,
        {
            if f(r[at - 1], i) {
                break;
            }
            at -= 1;
        }
        let ghost before = r@;
        r.insert(at, i);
        proof {
            assert forall|a: int, b: int| 0 <= a < b < r@.len() implies comes_before(
                le,
                #[trigger] r@[a] as int,
                #[trigger] r@[b] as int,
            ) by {
                let x = if a < at { a } else { a - 1 };
                let y = if b < at { b } else { b - 1 };
                if a != at {
                    assert(r@[a] == before[x]);
                }
                if b != at {
                    assert(r@[b] == before[y]);
                }
                if a != at && b != at {
                    assert(comes_before(le, before[x] as int, before[y] as int));
                } else if b == at {
                    if a < at - 1 {
                        assert(comes_before(le, before[a] as int, before[at - 1] as int));
                    }
                } else {
                    assert(!le(before[y] as int, i as int));
                }
            }
            assert forall|k: int| 0 <= k < r@.len() implies #[trigger] r@[k] < i + 1 by {
                if k < at {
                    assert(r@[k] == before[k]);
                } else if k > at {
                    assert(r@[k] == before[k - 1]);
                }
            }
            assert(r@.no_duplicates()) by {
                assert forall|a: int, b: int|
                    0 <= a < r@.len() && 0 <= b < r@.len() && a != b implies r@[a] != r@[b] by {
                    let x = if a < at { a } else { a - 1 };
                    let y = if b < at { b } else { b - 1 };
                    if a != at {
                        assert(r@[a] == before[x] && before[x] < i);
                    }
                    if b != at {
                        assert(r@[b] == before[y] && before[y] < i);
                    }
                }
            }
        }
        i += 1;
    }
    r
}

} // verus!
