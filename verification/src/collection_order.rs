//! Shared ordering policy for tracks inside collections.
//!
//! A collection has its own durable order, independent of album track
//! numbers. For rows without a stored position a sensible order is inferred:
//! coherent disc and track numbers first, otherwise the order in which the
//! tracks were added. Titles are never the primary fallback, because an
//! alphabetical collection is almost never what the listener meant.
use crate::sorting::{stable_order, stably_ordered};
use crate::text::{same_opt, text_rank, to_lower};
use vstd::prelude::*;

verus! {

/// One track of a collection, as far as its order is concerned.
#[derive(Debug, Clone)]
pub struct CollectionOrderItem {
    /// Index into the caller's parallel storage.
    pub index: usize,
    /// Stable identifier, the last tie-breaker.
    pub track_id: i64,
    /// Durable collection position, when set.
    pub explicit_position: Option<u32>,
    pub disc_number: u32,
    pub track_number: Option<u32>,
    /// If every item has the same album, its numbers are considered coherent
    /// even for a part of the album (say, tracks 5 to 11).
    pub album_id: Option<i64>,
    /// The same for items that are not in the database yet.
    pub album_key: Option<String>,
    /// The order in which the caller added or scanned the tracks.
    pub added_order: usize,
    pub title: String,
}

/// The disc an item counts for: disc zero is disc one.
pub open spec fn disc_of(it: CollectionOrderItem) -> int {
    if it.disc_number < 1 { 1 } else { it.disc_number as int }
}

/// The track number, zero where there is none.
pub open spec fn track_of(it: CollectionOrderItem) -> int {
    match it.track_number {
        Some(n) => n as int,
        None => 0,
    }
}

/// The album key as text, where it is not empty.
pub open spec fn key_of(it: CollectionOrderItem) -> Option<Seq<char>> {
    match it.album_key {
        Some(k) => if k@.len() > 0 { Some(k@) } else { None },
        None => None,
    }
}

/// Every item has a track number, and no two share a disc and track.
pub open spec fn numbered(items: Seq<CollectionOrderItem>) -> bool {
    &&& forall|i: int| 0 <= i < items.len() ==> track_of(#[trigger] items[i]) > 0
    &&& forall|i: int, j: int|
        0 <= i < j < items.len() ==> disc_of(#[trigger] items[i]) != disc_of(#[trigger] items[j])
            || track_of(items[i]) != track_of(items[j])
}

/// Some item has this disc and track number.
pub open spec fn has_slot(items: Seq<CollectionOrderItem>, disc: int, track: int) -> bool {
    exists|j: int|
        0 <= j < items.len() && disc_of(#[trigger] items[j]) == disc && track_of(items[j]) == track
}

/// The track numbers of each disc leave no gap below any of them.
pub open spec fn dense(items: Seq<CollectionOrderItem>) -> bool {
    forall|i: int, t: int|
        0 <= i < items.len() && 1 <= t < track_of(#[trigger] items[i]) ==> #[trigger] has_slot(
            items,
            disc_of(items[i]),
            t,
        )
}

/// All items carry one and the same album id.
pub open spec fn one_album_id(items: Seq<CollectionOrderItem>) -> bool {
    items[0].album_id is Some && forall|i: int|
        0 <= i < items.len() ==> (#[trigger] items[i]).album_id == items[0].album_id
}

/// All items carry one and the same album key, and it is not empty.
pub open spec fn one_album_key(items: Seq<CollectionOrderItem>) -> bool {
    key_of(items[0]) is Some && forall|i: int|
        0 <= i < items.len() ==> key_of(#[trigger] items[i]) == key_of(items[0])
}

/// No item belongs to an album.
pub open spec fn albumless(items: Seq<CollectionOrderItem>) -> bool {
    forall|i: int|
        0 <= i < items.len() ==> (#[trigger] items[i]).album_id is None && key_of(items[i]) is None
}

/// Whether disc and track numbers are evidence of the intended order: all
/// items are numbered apart, and they are from one album, or from none and
/// without gaps.
pub open spec fn cohesive(items: Seq<CollectionOrderItem>) -> bool {
    &&& items.len() > 0
    &&& numbered(items)
    &&& one_album_id(items) || one_album_key(items) || (albumless(items) && dense(items))
}

/// Title, in lower case.
pub open spec fn title_key(it: CollectionOrderItem) -> Seq<char> {
    crate::text::lowercased(it.title@)
}

/// The order by disc, track, time of adding, title and identifier.
pub open spec fn number_order(a: CollectionOrderItem, b: CollectionOrderItem) -> int {
    crate::text::lex(
        crate::text::num_order(a.disc_number as int, b.disc_number as int),
        crate::text::lex(
            crate::text::num_order(track_of(a), track_of(b)),
            crate::text::lex(
                crate::text::num_order(a.added_order as int, b.added_order as int),
                crate::text::lex(
                    crate::text::text_order(title_key(a), title_key(b)),
                    crate::text::num_order(a.track_id as int, b.track_id as int),
                ),
            ),
        ),
    )
}

/// The order by time of adding, identifier and title.
pub open spec fn added_order(a: CollectionOrderItem, b: CollectionOrderItem) -> int {
    crate::text::lex(
        crate::text::num_order(a.added_order as int, b.added_order as int),
        crate::text::lex(
            crate::text::num_order(a.track_id as int, b.track_id as int),
            crate::text::text_order(title_key(a), title_key(b)),
        ),
    )
}

/// The order that is inferred for tracks without a stored position.
pub open spec fn inferred_order(items: Seq<CollectionOrderItem>, i: int, j: int) -> int {
    if cohesive(items) {
        number_order(items[i], items[j])
    } else {
        added_order(items[i], items[j])
    }
}

/// `inferred_order` as a relation between positions.
pub open spec fn inferred_le(items: Seq<CollectionOrderItem>) -> spec_fn(int, int) -> bool {
    |i: int, j: int| inferred_order(items, i, j) <= 0
}

/// How many of the first `n` items come before item `i` in the inferred order.
pub open spec fn ahead(items: Seq<CollectionOrderItem>, i: int, n: int) -> nat
    decreases n,
{
    if n <= 0 {
        0
    } else {
        ahead(items, i, n - 1) + if n - 1 != i && crate::sorting::comes_before(
            inferred_le(items),
            n - 1,
            i,
        ) {
            1nat
        } else {
            0nat
        }
    }
}

/// The rank of item `i` in the inferred order, counted from one.
pub open spec fn rank(items: Seq<CollectionOrderItem>, i: int) -> nat {
    ahead(items, i, items.len() as int) + 1
}

/// The rank that goes with a caller's index: that of the last of the first
/// `n` items with that index, in the inferred order.
pub open spec fn index_rank(items: Seq<CollectionOrderItem>, index: usize, n: int) -> nat
    decreases n,
{
    if n <= 0 {
        0
    } else {
        let r = index_rank(items, index, n - 1);
        if items[n - 1].index == index && rank(items, n - 1) > r {
            rank(items, n - 1)
        } else {
            r
        }
    }
}

/// The last of the first `n` items with a caller's index.
pub open spec fn last_with(items: Seq<CollectionOrderItem>, index: usize, n: int) -> int
    decreases n,
{
    if n <= 0 {
        0
    } else if items[n - 1].index == index {
        n - 1
    } else {
        last_with(items, index, n - 1)
    }
}

/// The effective position of item `i`: the stored one, if it is set and not
/// zero, else its rank.
pub open spec fn position(items: Seq<CollectionOrderItem>, i: int) -> int {
    let it = items[last_with(items, items[i].index, items.len() as int)];
    match it.explicit_position {
        Some(p) => if p > 0 {
            p as int
        } else {
            (index_rank(items, it.index, items.len() as int) % 0x1_0000_0000) as int
        },
        None => (index_rank(items, it.index, items.len() as int) % 0x1_0000_0000) as int,
    }
}

/// Whether an item has a stored position other than zero.
pub open spec fn has_stored(it: CollectionOrderItem) -> bool {
    it.explicit_position is Some && it.explicit_position->0 > 0
}

/// One if no position is stored, else zero.
pub open spec fn unstored(it: CollectionOrderItem) -> int {
    if it.explicit_position is None { 1 } else { 0 }
}

/// The order in which a collection is shown and stored: by effective
/// position; stored positions first where they tie; then rank, title and
/// identifier.
pub open spec fn display_order(items: Seq<CollectionOrderItem>, i: int, j: int) -> int {
    let n = items.len() as int;
    crate::text::lex(
        crate::text::num_order(position(items, i), position(items, j)),
        crate::text::lex(
            crate::text::num_order(unstored(items[i]), unstored(items[j])),
            crate::text::lex(
                crate::text::num_order(
                    index_rank(items, items[i].index, n) as int,
                    index_rank(items, items[j].index, n) as int,
                ),
                crate::text::lex(
                    crate::text::text_order(title_key(items[i]), title_key(items[j])),
                    crate::text::num_order(items[i].track_id as int, items[j].track_id as int),
                ),
            ),
        ),
    )
}

/// `display_order` as a relation between positions.
pub open spec fn display_le(items: Seq<CollectionOrderItem>) -> spec_fn(int, int) -> bool {
    |i: int, j: int| display_order(items, i, j) <= 0
}

/// The callers' indices of the items, taken in the order `o`.
pub open spec fn indices_in(items: Seq<CollectionOrderItem>, o: Seq<usize>) -> Seq<usize> {
    o.map_values(|k: usize| items[k as int].index)
}

// ---------------------------------------------------------------------------
// Code

fn disc(it: &CollectionOrderItem) -> (r: u32)
    ensures
        r == disc_of(*it),
{
    if it.disc_number < 1 {
        1
    } else {
        it.disc_number
    }
}

fn track(it: &CollectionOrderItem) -> (r: u32)
    ensures
        r == track_of(*it),
{
    match it.track_number {
        Some(n) => n,
        None => 0,
    }
}

/// Whether some item has this disc and track number.
fn slot_taken(items: &[CollectionOrderItem], d: u32, t: u32) -> (r: bool)
    ensures
        r == has_slot(items@, d as int, t as int),
{
    let mut j: usize = 0;
    while j < items.len()
        invariant
            j <= items@.len(),
            forall|k: int|
                0 <= k < j ==> disc_of(#[trigger] items@[k]) != d || track_of(items@[k]) != t,
        decreases items@.len() - j,
    {
        if disc(&items[j]) == d && track(&items[j]) == t {
            return true;
        }
        j += 1;
    }
    false
}

/// Whether every item is numbered, apart from all others.
fn is_numbered(items: &[CollectionOrderItem]) -> (r: bool)
    ensures
        r == numbered(items@),
{
    let mut i: usize = 0;
    while i < items.len()
        invariant
            i <= items@.len(),
            forall|a: int| 0 <= a < i ==> track_of(#[trigger] items@[a]) > 0,
            forall|a: int, b: int|
                0 <= a < b < i ==> disc_of(#[trigger] items@[a]) != disc_of(#[trigger] items@[b])
                    || track_of(items@[a]) != track_of(items@[b]),
        decreases items@.len() - i,
    {
        let d = disc(&items[i]);
        let t = track(&items[i]);
        if t == 0 {
            return false;
        }
        let mut j: usize = 0;
        while j < i
            invariant
                j <= i < items@.len(),
                d == disc_of(items@[i as int]),
                t == track_of(items@[i as int]),
                forall|a: int|
                    0 <= a < j ==> disc_of(#[trigger] items@[a]) != d || track_of(items@[a]) != t,
            decreases i - j,
        {
            if disc(&items[j]) == d && track(&items[j]) == t {
                assert(disc_of(items@[j as int]) == disc_of(items@[i as int]));
                return false;
            }
            j += 1;
        }
        i += 1;
    }
    true
}

proof fn lemma_dense_step(items: Seq<CollectionOrderItem>, i: int, t: int)
    requires
        0 <= i < items.len(),
        1 <= t < track_of(items[i]),
        forall|k: int|
            0 <= k < items.len() && track_of(#[trigger] items[k]) > 1 ==> has_slot(
                items,
                disc_of(items[k]),
                track_of(items[k]) - 1,
            ),
    ensures
        has_slot(items, disc_of(items[i]), t),
    decreases track_of(items[i]) - t,
{
    assert(has_slot(items, disc_of(items[i]), track_of(items[i]) - 1));
    if t < track_of(items[i]) - 1 {
        let j = choose|j: int|
            0 <= j < items.len() && disc_of(#[trigger] items[j]) == disc_of(items[i]) && track_of(
                items[j],
            ) == track_of(items[i]) - 1;
        lemma_dense_step(items, j, t);
    }
}

/// Whether the track numbers of each disc leave no gap.
fn is_dense(items: &[CollectionOrderItem]) -> (r: bool)
    ensures
        r == dense(items@),
{
    let mut i: usize = 0;
    while i < items.len()
        invariant
            i <= items@.len(),
            forall|k: int|
                0 <= k < i && track_of(#[trigger] items@[k]) > 1 ==> has_slot(
                    items@,
                    disc_of(items@[k]),
                    track_of(items@[k]) - 1,
                ),
        decreases items@.len() - i,
    {
        let t = track(&items[i]);
        if t > 1 && !slot_taken(items, disc(&items[i]), t - 1) {
            assert(!dense(items@)) by {
                assert(!has_slot(items@, disc_of(items@[i as int]), t - 1));
            }
            return false;
        }
        i += 1;
    }
    assert forall|i: int, t: int|
        0 <= i < items@.len() && 1 <= t < track_of(#[trigger] items@[i]) implies #[trigger] has_slot(
        items@,
        disc_of(items@[i]),
        t,
    ) by {
        lemma_dense_step(items@, i, t);
    }
    true
}

fn album_key(it: &CollectionOrderItem) -> (r: Option<String>)
    ensures
        crate::text::opt_view(r) == key_of(*it),
{
    match &it.album_key {
        Some(k) => if k.as_str().is_empty() {
            None
        } else {
            Some(k.clone())
        },
        None => None,
    }
}

/// Whether disc and track numbers are evidence of the intended order.
pub fn has_cohesive_metadata(items: &[CollectionOrderItem]) -> (r: bool)
    ensures
        r == cohesive(items@),
{
    if items.len() == 0 || !is_numbered(items) {
        return false;
    }
    let first_id = items[0].album_id;
    let first_key = album_key(&items[0]);
    let mut same_id = first_id.is_some();
    let mut same_key = first_key.is_some();
    let mut none = true;
    let mut i: usize = 0;
    while i < items.len()
        invariant
            i <= items@.len(),
            items@.len() > 0,
            first_id == items@[0].album_id,
            crate::text::opt_view(first_key) == key_of(items@[0]),
            same_id == (first_id is Some && forall|k: int|
                0 <= k < i ==> (#[trigger] items@[k]).album_id == items@[0].album_id),
            same_key == (first_key is Some && forall|k: int|
                0 <= k < i ==> key_of(#[trigger] items@[k]) == key_of(items@[0])),
            none == (forall|k: int|
                0 <= k < i ==> (#[trigger] items@[k]).album_id is None && key_of(items@[k]) is None),
        decreases items@.len() - i,
    {
        let key = album_key(&items[i]);
        if items[i].album_id != first_id {
            same_id = false;
        }
        if !same_opt(&key, &first_key) {
            same_key = false;
        }
        if items[i].album_id.is_some() || key.is_some() {
            none = false;
        }
        i += 1;
    }
    same_id || same_key || (none && is_dense(items))
}

fn num_rank(a: u64, b: u64) -> (r: i8)
    ensures
        r == crate::text::num_order(a as int, b as int),
{
    if a < b {
        -1
    } else if a > b {
        1
    } else {
        0
    }
}

fn id_rank(a: i64, b: i64) -> (r: i8)
    ensures
        r == crate::text::num_order(a as int, b as int),
{
    if a < b {
        -1
    } else if a > b {
        1
    } else {
        0
    }
}

fn tie(first: i8, second: i8) -> (r: i8)
    ensures
        r == crate::text::lex(first as int, second as int),
{
    if first == 0 {
        second
    } else {
        first
    }
}

proof fn lemma_inferred_total(items: Seq<CollectionOrderItem>)
    ensures
        crate::sorting::total_order(inferred_le(items), items.len() as int),
{
    let le = inferred_le(items);
    let n = items.len() as int;
    assert forall|i: int, j: int| 0 <= i < n && 0 <= j < n implies #[trigger] le(i, j) || le(j, i) by {
        crate::text::lemma_text_order_flip(title_key(items[i]), title_key(items[j]));
    }
    assert forall|i: int, j: int, k: int|
        0 <= i < n && 0 <= j < n && 0 <= k < n && #[trigger] le(i, j) && #[trigger] le(j, k) implies le(
        i,
        k,
    ) by {
        let (a, b, c) = (title_key(items[i]), title_key(items[j]), title_key(items[k]));
        lemma_titles(a, b, c);
    }
}

/// The order of texts as three facts that the solver can chain.
proof fn lemma_titles(a: Seq<char>, b: Seq<char>, c: Seq<char>)
    ensures
        crate::text::text_order(a, b) <= 0 && crate::text::text_order(b, c) <= 0
            ==> crate::text::text_order(a, c) <= 0,
        (crate::text::text_order(a, b) < 0 && crate::text::text_order(b, c) <= 0)
            ==> crate::text::text_order(a, c) < 0,
        (crate::text::text_order(a, b) <= 0 && crate::text::text_order(b, c) < 0)
            ==> crate::text::text_order(a, c) < 0,
        crate::text::text_order(a, b) == 0 <==> a == b,
        crate::text::text_order(b, c) == 0 <==> b == c,
{
    crate::text::lemma_text_order_flip(a, b);
    crate::text::lemma_text_order_flip(b, c);
    if crate::text::text_order(a, b) <= 0 && crate::text::text_order(b, c) <= 0 {
        crate::text::lemma_text_order_transitive(a, b, c);
    }
}

proof fn lemma_display_total(items: Seq<CollectionOrderItem>)
    ensures
        crate::sorting::total_order(display_le(items), items.len() as int),
{
    let le = display_le(items);
    let n = items.len() as int;
    assert forall|i: int, j: int| 0 <= i < n && 0 <= j < n implies #[trigger] le(i, j) || le(j, i) by {
        crate::text::lemma_text_order_flip(title_key(items[i]), title_key(items[j]));
    }
    assert forall|i: int, j: int, k: int|
        0 <= i < n && 0 <= j < n && 0 <= k < n && #[trigger] le(i, j) && #[trigger] le(j, k) implies le(
        i,
        k,
    ) by {
        lemma_titles(title_key(items[i]), title_key(items[j]), title_key(items[k]));
    }
}

/// The titles in lower case.
fn lower_titles(items: &[CollectionOrderItem]) -> (r: Vec<String>)
    ensures
        r@.len() == items@.len(),
        forall|i: int| 0 <= i < r@.len() ==> (#[trigger] r@[i])@ == title_key(items@[i]),
{
    let mut out: Vec<String> = Vec::new();
    let mut i: usize = 0;
    while i < items.len()
        invariant
            i <= items@.len(),
            out@.len() == i,
            forall|k: int| 0 <= k < i ==> (#[trigger] out@[k])@ == title_key(items@[k]),
        decreases items@.len() - i,
    {
        out.push(to_lower(items[i].title.as_str()));
        i += 1;
    }
    out
}

fn inferred_rank(
    items: &[CollectionOrderItem],
    titles: &Vec<String>,
    coherent: bool,
    i: usize,
    j: usize,
) -> (r: i8)
    requires
        i < items@.len(),
        j < items@.len(),
        titles@.len() == items@.len(),
        forall|k: int| 0 <= k < titles@.len() ==> (#[trigger] titles@[k])@ == title_key(items@[k]),
        coherent == cohesive(items@),
    ensures
        r == inferred_order(items@, i as int, j as int),
{
    let a = &items[i];
    let b = &items[j];
    let by_title = text_rank(titles[i].as_str(), titles[j].as_str());
    let by_id = id_rank(a.track_id, b.track_id);
    let by_added = num_rank(a.added_order as u64, b.added_order as u64);
    if coherent {
        let by_disc = num_rank(a.disc_number as u64, b.disc_number as u64);
        let by_track = num_rank(track(a) as u64, track(b) as u64);
        tie(by_disc, tie(by_track, tie(by_added, tie(by_title, by_id))))
    } else {
        tie(by_added, tie(by_id, by_title))
    }
}

proof fn lemma_ahead_bound(items: Seq<CollectionOrderItem>, i: int, n: int)
    requires
        0 <= i < items.len(),
    ensures
        n >= 0 ==> ahead(items, i, n) <= n - (if n > i { 1int } else { 0int }),
    decreases n,
{
    if n > 0 {
        lemma_ahead_bound(items, i, n - 1);
    }
}

/// The rank of every item in the inferred order, counted from one.
fn item_ranks(items: &[CollectionOrderItem], titles: &Vec<String>) -> (r: Vec<usize>)
    requires
        titles@.len() == items@.len(),
        forall|k: int| 0 <= k < titles@.len() ==> (#[trigger] titles@[k])@ == title_key(items@[k]),
    ensures
        r@.len() == items@.len(),
        forall|i: int| 0 <= i < r@.len() ==> #[trigger] r@[i] == rank(items@, i),
{
    let coherent = has_cohesive_metadata(items);
    let n: usize = items.len();
    let mut out: Vec<usize> = Vec::new();
    let mut i: usize = 0;
    while i < n
        invariant
            i <= n,
            n == items@.len(),
            coherent == cohesive(items@),
            titles@.len() == items@.len(),
            forall|k: int|
                0 <= k < titles@.len() ==> (#[trigger] titles@[k])@ == title_key(items@[k]),
            out@.len() == i,
            forall|k: int| 0 <= k < i ==> #[trigger] out@[k] == rank(items@, k),
        decreases n - i,
    {
        let mut count: usize = 0;
        let mut j: usize = 0;
        while j < n
            invariant
                j <= n,
                i < n,
                n == items@.len(),
                coherent == cohesive(items@),
                titles@.len() == items@.len(),
                forall|k: int|
                    0 <= k < titles@.len() ==> (#[trigger] titles@[k])@ == title_key(items@[k]),
                count == ahead(items@, i as int, j as int),
                count <= j,
            decreases n - j,
        {
            if j != i {
                let o = inferred_rank(items, titles, coherent, j, i);
                let back = inferred_rank(items, titles, coherent, i, j);
                if o <= 0 && (back > 0 || j < i) {
                    count += 1;
                }
            }
            j += 1;
        }
        proof {
            lemma_ahead_bound(items@, i as int, n as int);
        }
        out.push(count + 1);
        i += 1;
    }
    out
}

/// For every item, the rank that goes with its caller's index.
fn fallback_rank_map(items: &[CollectionOrderItem], titles: &Vec<String>) -> (r: Vec<usize>)
    requires
        titles@.len() == items@.len(),
        forall|k: int| 0 <= k < titles@.len() ==> (#[trigger] titles@[k])@ == title_key(items@[k]),
    ensures
        r@.len() == items@.len(),
        forall|i: int|
            0 <= i < r@.len() ==> #[trigger] r@[i] == index_rank(
                items@,
                items@[i].index,
                items@.len() as int,
            ),
{
    let ranks = item_ranks(items, titles);
    let n: usize = items.len();
    let mut out: Vec<usize> = Vec::new();
    let mut i: usize = 0;
    while i < n
        invariant
            i <= n,
            n == items@.len(),
            ranks@.len() == n,
            forall|k: int| 0 <= k < n ==> #[trigger] ranks@[k] == rank(items@, k),
            out@.len() == i,
            forall|k: int|
                0 <= k < i ==> #[trigger] out@[k] == index_rank(items@, items@[k].index, n as int),
        decreases n - i,
    {
        let mut best: usize = 0;
        let mut j: usize = 0;
        while j < n
            invariant
                j <= n,
                i < n,
                n == items@.len(),
                ranks@.len() == n,
                forall|k: int| 0 <= k < n ==> #[trigger] ranks@[k] == rank(items@, k),
                best == index_rank(items@, items@[i as int].index, j as int),
            decreases n - j,
        {
            if items[j].index == items[i].index && ranks[j] > best {
                best = ranks[j];
            }
            j += 1;
        }
        out.push(best);
        i += 1;
    }
    out
}

proof fn lemma_last_with(items: Seq<CollectionOrderItem>, i: int, n: int)
    requires
        0 <= i < n <= items.len(),
    ensures
        0 <= last_with(items, items[i].index, n) < n,
        items[last_with(items, items[i].index, n)].index == items[i].index,
    decreases n,
{
    if items[n - 1].index != items[i].index {
        lemma_last_with(items, i, n - 1);
    }
}

/// The effective position of every item.
fn effective_position_map(items: &[CollectionOrderItem], ranks: &Vec<usize>) -> (r: Vec<u32>)
    requires
        ranks@.len() == items@.len(),
        forall|i: int|
            0 <= i < ranks@.len() ==> #[trigger] ranks@[i] == index_rank(
                items@,
                items@[i].index,
                items@.len() as int,
            ),
    ensures
        r@.len() == items@.len(),
        forall|i: int| 0 <= i < r@.len() ==> #[trigger] r@[i] == position(items@, i),
{
    let n: usize = items.len();
    let mut out: Vec<u32> = Vec::new();
    let mut i: usize = 0;
    while i < n
        invariant
            i <= n,
            n == items@.len(),
            ranks@.len() == n,
            forall|k: int|
                0 <= k < n ==> #[trigger] ranks@[k] == index_rank(
                    items@,
                    items@[k].index,
                    n as int,
                ),
            out@.len() == i,
            forall|k: int| 0 <= k < i ==> #[trigger] out@[k] == position(items@, k),
        decreases n - i,
    {
        let mut j: usize = n;
        let ghost index = items@[i as int].index;
        proof {
            lemma_last_with(items@, i as int, n as int);
        }
        while items[j - 1].index != items[i].index
            invariant
                i < j <= n,
                n == items@.len(),
                index == items@[i as int].index,
                last_with(items@, index, n as int) == last_with(items@, index, j as int),
            decreases j,
        {
            j -= 1;
        }
        let last: usize = j - 1;
        assert(last == last_with(items@, index, n as int));
        assert(ranks@[last as int] == index_rank(items@, items@[last as int].index, n as int));
        let computed: u32 = (ranks[last] as u64 % 0x1_0000_0000) as u32;
        let pos: u32 = match items[last].explicit_position {
            Some(p) => if p > 0 {
                p
            } else {
                computed
            },
            None => computed,
        };
        out.push(pos);
        i += 1;
    }
    out
}

/// The callers' indices in collection order, as shown and as stored on disk.
pub fn ordered_indices(items: &[CollectionOrderItem]) -> (r: Vec<usize>)
    ensures
        exists|o: Seq<usize>|
            #![trigger stably_ordered(o, display_le(items@), items@.len() as int)]
            stably_ordered(o, display_le(items@), items@.len() as int) && r@ == indices_in(items@, o),
{
    let titles = lower_titles(items);
    let ranks = fallback_rank_map(items, &titles);
    let positions = effective_position_map(items, &ranks);
    let n: usize = items.len();
    let ghost le = display_le(items@);
    proof {
        lemma_display_total(items@);
    }
    let le_exec = |i: usize, j: usize| -> (b: bool)
        requires
            i < n,
            j < n,
            n == items@.len(),
            titles@.len() == n,
            ranks@.len() == n,
            positions@.len() == n,
            forall|k: int| 0 <= k < n ==> (#[trigger] titles@[k])@ == title_key(items@[k]),
            forall|k: int|
                0 <= k < n ==> #[trigger] ranks@[k] == index_rank(items@, items@[k].index, n as int),
            forall|k: int| 0 <= k < n ==> #[trigger] positions@[k] == position(items@, k),
        ensures
            b == le(i as int, j as int),
        {
            let by_pos = num_rank(positions[i] as u64, positions[j] as u64);
            let ui: u64 = if items[i].explicit_position.is_none() {
                1
            } else {
                0
            };
            let uj: u64 = if items[j].explicit_position.is_none() {
                1
            } else {
                0
            };
            let by_stored = num_rank(ui, uj);
            let by_rank = num_rank(ranks[i] as u64, ranks[j] as u64);
            let by_title = text_rank(titles[i].as_str(), titles[j].as_str());
            let by_id = id_rank(items[i].track_id, items[j].track_id);
            tie(by_pos, tie(by_stored, tie(by_rank, tie(by_title, by_id)))) <= 0
        };
    let order = stable_order(n, le_exec, Ghost(le));
    let mut out: Vec<usize> = Vec::new();
    let mut i: usize = 0;
    while i < order.len()
        invariant
            i <= order@.len(),
            stably_ordered(order@, display_le(items@), items@.len() as int),
            out@ == indices_in(items@, order@.take(i as int)),
        decreases order@.len() - i,
    {
        out.push(items[order[i]].index);
        i += 1;
        assert(indices_in(items@, order@.take(i as int)) =~= indices_in(
            items@,
            order@.take(i - 1),
        ).push(items@[order@[i - 1] as int].index));
    }
    assert(order@.take(order@.len() as int) =~= order@);
    out
}

/// The callers' indices with their effective positions, in the order given.
/// Stored positions are returned as they are; rows without one receive the
/// rank that they have in the inferred order.
pub fn effective_positions(items: &[CollectionOrderItem]) -> (r: Vec<(usize, u32)>)
    ensures
        r@.len() == items@.len(),
        forall|i: int|
            0 <= i < r@.len() ==> (#[trigger] r@[i]).0 == items@[i].index && r@[i].1 == position(
                items@,
                i,
            ),
{
    let titles = lower_titles(items);
    let ranks = fallback_rank_map(items, &titles);
    let positions = effective_position_map(items, &ranks);
    let mut out: Vec<(usize, u32)> = Vec::new();
    let mut i: usize = 0;
    while i < items.len()
        invariant
            i <= items@.len(),
            positions@.len() == items@.len(),
            forall|k: int| 0 <= k < items@.len() ==> #[trigger] positions@[k] == position(items@, k),
            out@.len() == i,
            forall|k: int|
                0 <= k < i ==> (#[trigger] out@[k]).0 == items@[k].index && out@[k].1 == position(
                    items@,
                    k,
                ),
        decreases items@.len() - i,
    {
        out.push((items[i].index, positions[i]));
        i += 1;
    }
    out
}

// ---------------------------------------------------------------------------
// Laws

/// No two items share a caller's index.
pub open spec fn distinct_indices(items: Seq<CollectionOrderItem>) -> bool {
    forall|i: int, j: int|
        0 <= i < j < items.len() ==> (#[trigger] items[i]).index != (#[trigger] items[j]).index
}

proof fn lemma_distinct_last(items: Seq<CollectionOrderItem>, i: int, n: int)
    requires
        distinct_indices(items),
        0 <= i < n <= items.len(),
    ensures
        last_with(items, items[i].index, n) == i,
    decreases n,
{
    if n - 1 != i {
        lemma_distinct_last(items, i, n - 1);
    }
}

proof fn lemma_distinct_rank(items: Seq<CollectionOrderItem>, i: int, n: int)
    requires
        distinct_indices(items),
        0 <= i < items.len(),
        0 <= n <= items.len(),
    ensures
        index_rank(items, items[i].index, n) == (if i < n { rank(items, i) } else { 0nat }),
    decreases n,
{
    if n > 0 {
        lemma_distinct_rank(items, i, n - 1);
    }
}

/// A stored position always wins over the inferred one; without one, the
/// position is the rank in the inferred order.
pub proof fn law_stored_position_wins(items: Seq<CollectionOrderItem>, i: int)
    requires
        distinct_indices(items),
        0 <= i < items.len() <= u32::MAX,
    ensures
        has_stored(items[i]) ==> position(items, i) == items[i].explicit_position->0,
        !has_stored(items[i]) ==> position(items, i) == rank(items, i),
        1 <= rank(items, i) <= items.len(),
{
    lemma_distinct_last(items, i, items.len() as int);
    lemma_distinct_rank(items, i, items.len() as int);
    lemma_ahead_bound(items, i, items.len() as int);
}

proof fn lemma_ahead_monotone(items: Seq<CollectionOrderItem>, i: int, j: int, n: int)
    requires
        0 <= i < items.len(),
        0 <= j < items.len(),
        i != j,
        0 <= n <= items.len(),
        crate::sorting::comes_before(inferred_le(items), i, j),
    ensures
        ahead(items, i, n) + (if i < n { 1int } else { 0int }) <= ahead(items, j, n),
    decreases n,
{
    if n > 0 {
        lemma_ahead_monotone(items, i, j, n - 1);
        lemma_inferred_total(items);
        let le = inferred_le(items);
        let k = n - 1;
        if k != i && crate::sorting::comes_before(le, k, i) {
            assert(le(k, i) && le(i, j));
            assert(le(k, j));
            if k == j {
                assert(le(i, j) && le(j, i));
                assert(false);
            }
            assert(crate::sorting::comes_before(le, k, j)) by {
                if le(j, k) {
                    assert(le(j, k) && le(k, i));
                    assert(le(j, i));
                    assert(le(i, j) && le(j, k));
                    assert(le(i, k));
                }
            }
        }
    }
}

/// Ranks follow the inferred order: of two tracks the one that comes first
/// has the smaller rank, so no two ranks are equal.
pub proof fn law_ranks_follow_order(items: Seq<CollectionOrderItem>, i: int, j: int)
    requires
        0 <= i < items.len(),
        0 <= j < items.len(),
        i != j,
    ensures
        crate::sorting::comes_before(inferred_le(items), i, j) <==> rank(items, i) < rank(items, j),
        rank(items, i) != rank(items, j),
{
    lemma_inferred_total(items);
    let le = inferred_le(items);
    assert(le(i, j) || le(j, i));
    if crate::sorting::comes_before(le, i, j) {
        lemma_ahead_monotone(items, i, j, items.len() as int);
    } else {
        assert(crate::sorting::comes_before(le, j, i));
        lemma_ahead_monotone(items, j, i, items.len() as int);
    }
}

/// Where every track has a stored position and no two share one, the
/// collection plays by ascending stored position.
pub proof fn law_stored_positions_give_the_order(
    items: Seq<CollectionOrderItem>,
    o: Seq<usize>,
    a: int,
    b: int,
)
    requires
        distinct_indices(items),
        forall|i: int|
            0 <= i < items.len() ==> has_stored(#[trigger] items[i]),
        stably_ordered(o, display_le(items), items.len() as int),
        0 <= a < b < o.len(),
    ensures
        items[o[a] as int].explicit_position->0 <= items[o[b] as int].explicit_position->0,
{
    let (i, j) = (o[a] as int, o[b] as int);
    assert(crate::sorting::comes_before(display_le(items), i, j));
    lemma_distinct_last(items, i, items.len() as int);
    lemma_distinct_last(items, j, items.len() as int);
    assert(items[i].explicit_position is Some && items[j].explicit_position is Some);
}

/// Without any stored position, the collection plays in the inferred order.
pub proof fn law_unpositioned_tracks_play_in_inferred_order(
    items: Seq<CollectionOrderItem>,
    o: Seq<usize>,
    a: int,
    b: int,
)
    requires
        distinct_indices(items),
        items.len() <= u32::MAX,
        forall|i: int| 0 <= i < items.len() ==> (#[trigger] items[i]).explicit_position is None,
        stably_ordered(o, display_le(items), items.len() as int),
        0 <= a < b < o.len(),
    ensures
        crate::sorting::comes_before(inferred_le(items), o[a] as int, o[b] as int),
{
    let (i, j) = (o[a] as int, o[b] as int);
    assert(crate::sorting::comes_before(display_le(items), i, j));
    assert(items[i].explicit_position is None && items[j].explicit_position is None);
    law_stored_position_wins(items, i);
    law_stored_position_wins(items, j);
    assert(i != j);
    law_ranks_follow_order(items, i, j);
}

/// Whether every item has a track number, and no two items are of one disc and
/// track; disc zero is disc one.
pub open spec fn numbers_tell_apart(items: Seq<CollectionOrderItem>) -> bool {
    &&& forall|i: int|
        0 <= i < items.len() ==> (#[trigger] items[i]).track_number is Some
            && items[i].track_number->0 > 0
    &&& forall|i: int, j: int|
        0 <= i < j < items.len() ==> {
            let a = #[trigger] items[i];
            let b = #[trigger] items[j];
            a.track_number != b.track_number || (a.disc_number != b.disc_number && !(a.disc_number
                <= 1 && b.disc_number <= 1))
        }
}

/// Whether some item is of this disc and track; disc zero is disc one.
pub open spec fn holds_number(items: Seq<CollectionOrderItem>, disc: u32, track: u32) -> bool {
    exists|j: int|
        0 <= j < items.len() && (#[trigger] items[j]).track_number == Some(track) && (
        items[j].disc_number == disc || (items[j].disc_number <= 1 && disc <= 1))
}

/// Whether all items are of the album with this id.
pub open spec fn all_of_album(items: Seq<CollectionOrderItem>, id: i64) -> bool {
    forall|i: int| 0 <= i < items.len() ==> (#[trigger] items[i]).album_id == Some(id)
}

/// Whether all items are of the album with this key.
pub open spec fn all_of_key(items: Seq<CollectionOrderItem>, key: Seq<char>) -> bool {
    key.len() > 0 && forall|i: int|
        0 <= i < items.len() ==> (#[trigger] items[i]).album_key is Some
            && items[i].album_key->0@ == key
}

/// Whether the items are all from one album, or from none and then number
/// every track of a disc from one on.
pub open spec fn numbers_mean_something(items: Seq<CollectionOrderItem>) -> bool {
    ||| exists|id: i64| #[trigger] all_of_album(items, id)
    ||| exists|key: Seq<char>| #[trigger] all_of_key(items, key)
    ||| {
        &&& forall|i: int|
            0 <= i < items.len() ==> (#[trigger] items[i]).album_id is None && (
            items[i].album_key is None || items[i].album_key->0@.len() == 0)
        &&& forall|i: int, t: u32|
            0 <= i < items.len() && 1 <= t < (#[trigger] items[i]).track_number->0
                ==> #[trigger] holds_number(items, items[i].disc_number, t)
    }
}

proof fn lemma_numbers_are_cohesive(items: Seq<CollectionOrderItem>)
    requires
        items.len() > 0,
        numbers_tell_apart(items),
        numbers_mean_something(items),
    ensures
        cohesive(items),
{
    assert(numbered(items)) by {
        assert forall|i: int| 0 <= i < items.len() implies track_of(#[trigger] items[i]) > 0 by {}
        assert forall|i: int, j: int| 0 <= i < j < items.len() implies disc_of(#[trigger] items[i])
            != disc_of(#[trigger] items[j]) || track_of(items[i]) != track_of(items[j]) by {
            assert(items[i].track_number is Some && items[j].track_number is Some);
        }
    }
    assert(items[0] == items[0]);
    if exists|id: i64| #[trigger] all_of_album(items, id) {
        assert(one_album_id(items));
    } else if exists|key: Seq<char>| #[trigger] all_of_key(items, key) {
        let key = choose|key: Seq<char>| #[trigger] all_of_key(items, key);
        assert forall|i: int| 0 <= i < items.len() implies key_of(#[trigger] items[i]) == Some(key) by {}
        assert(one_album_key(items));
    } else {
        assert(albumless(items));
        assert forall|i: int, t: int|
            0 <= i < items.len() && 1 <= t < track_of(#[trigger] items[i]) implies #[trigger] has_slot(
            items,
            disc_of(items[i]),
            t,
        ) by {
            assert(items[i].track_number is Some);
            assert(holds_number(items, items[i].disc_number, t as u32));
            let j = choose|j: int|
                0 <= j < items.len() && (#[trigger] items[j]).track_number == Some(t as u32) && (
                items[j].disc_number == items[i].disc_number || (items[j].disc_number <= 1
                    && items[i].disc_number <= 1));
            assert(disc_of(items[j]) == disc_of(items[i]) && track_of(items[j]) == t);
        }
    }
}

/// Where no item has a stored position and disc and track numbers are
/// coherent, every item of a lower disc number comes before every item of a
/// higher one, and on one disc a lower track number comes first.
pub proof fn law_coherent_numbers_give_the_order(
    items: Seq<CollectionOrderItem>,
    o: Seq<usize>,
    a: int,
    b: int,
)
    requires
        distinct_indices(items),
        items.len() <= u32::MAX,
        forall|i: int| 0 <= i < items.len() ==> (#[trigger] items[i]).explicit_position is None,
        numbers_tell_apart(items),
        numbers_mean_something(items),
        stably_ordered(o, display_le(items), items.len() as int),
        0 <= a < b < o.len(),
    ensures
        ({
            let first = items[o[a] as int];
            let second = items[o[b] as int];
            first.disc_number < second.disc_number || (first.disc_number == second.disc_number
                && first.track_number->0 < second.track_number->0)
        }),
{
    law_unpositioned_tracks_play_in_inferred_order(items, o, a, b);
    lemma_numbers_are_cohesive(items);
    let (i, j) = (o[a] as int, o[b] as int);
    assert(inferred_le(items)(i, j));
    assert(o[a] != o[b]);
    if i < j {
        assert(items[i].track_number is Some && items[j].track_number is Some);
    } else {
        assert(items[j].track_number is Some && items[i].track_number is Some);
    }
    assert(inferred_order(items, i, j) <= 0);
}

/// Where no item has a stored position and the numbers are no evidence, the
/// items play as they were added. That is so where an item has no track
/// number, where two items share a disc and track, and where items are from
/// different albums.
pub proof fn law_without_coherent_numbers_items_play_as_added(
    items: Seq<CollectionOrderItem>,
    o: Seq<usize>,
    a: int,
    b: int,
    i: int,
    j: int,
)
    requires
        distinct_indices(items),
        items.len() <= u32::MAX,
        forall|k: int| 0 <= k < items.len() ==> (#[trigger] items[k]).explicit_position is None,
        0 <= i < items.len(),
        0 <= j < items.len(),
        ({
            ||| items[i].track_number is None
            ||| items[i].track_number == Some(0u32)
            ||| i != j && items[i].track_number == items[j].track_number && items[i].disc_number
                == items[j].disc_number
            ||| items[i].album_id is Some && items[i].album_id != items[j].album_id
                && items[i].album_key is None
        }),
        stably_ordered(o, display_le(items), items.len() as int),
        0 <= a < b < o.len(),
    ensures
        ({
            let first = items[o[a] as int];
            let second = items[o[b] as int];
            first.added_order < second.added_order || (first.added_order == second.added_order
                && first.track_id <= second.track_id)
        }),
{
    law_unpositioned_tracks_play_in_inferred_order(items, o, a, b);
    assert(!cohesive(items)) by {
        if cohesive(items) {
            assert(track_of(items[i]) > 0);
            if i != j && items[i].track_number == items[j].track_number && items[i].disc_number
                == items[j].disc_number {
                if i < j {
                    assert(disc_of(items[i]) != disc_of(items[j]) || track_of(items[i]) != track_of(
                        items[j],
                    ));
                } else {
                    assert(disc_of(items[j]) != disc_of(items[i]) || track_of(items[j]) != track_of(
                        items[i],
                    ));
                }
            } else {
                assert(key_of(items[i]) is None);
                if one_album_id(items) {
                    assert(items[i].album_id == items[0].album_id);
                    assert(items[j].album_id == items[0].album_id);
                } else if one_album_key(items) {
                    assert(key_of(items[i]) == key_of(items[0]));
                } else {
                    assert(items[i].album_id is None);
                }
            }
        }
    }
    assert(inferred_le(items)(o[a] as int, o[b] as int));
    assert(inferred_order(items, o[a] as int, o[b] as int) <= 0);
}

/// A collection plays by effective positions: the stored one where it is set,
/// else the rank. Where a stored and an inferred position are one number, the
/// stored one comes first.
pub proof fn law_positions_give_the_order(
    items: Seq<CollectionOrderItem>,
    o: Seq<usize>,
    a: int,
    b: int,
)
    requires
        distinct_indices(items),
        items.len() <= u32::MAX,
        stably_ordered(o, display_le(items), items.len() as int),
        0 <= a < b < o.len(),
    ensures
        ({
            let (i, j) = (o[a] as int, o[b] as int);
            let p = if items[i].explicit_position is Some && items[i].explicit_position->0 > 0 {
                items[i].explicit_position->0 as int
            } else {
                rank(items, i) as int
            };
            let q = if items[j].explicit_position is Some && items[j].explicit_position->0 > 0 {
                items[j].explicit_position->0 as int
            } else {
                rank(items, j) as int
            };
            &&& p <= q
            &&& p == q && items[j].explicit_position is Some ==> items[i].explicit_position is Some
        }),
{
    let (i, j) = (o[a] as int, o[b] as int);
    assert(crate::sorting::comes_before(display_le(items), i, j));
    law_stored_position_wins(items, i);
    law_stored_position_wins(items, j);
    assert(display_le(items)(i, j));
    assert(display_order(items, i, j) <= 0);
}

/// Every item is in the order, once: what `ordered_indices` gives back are the
/// callers' indices, none lost and none made up.
pub proof fn law_every_item_is_ordered_once(items: Seq<CollectionOrderItem>, o: Seq<usize>)
    requires
        distinct_indices(items),
        stably_ordered(o, display_le(items), items.len() as int),
    ensures
        indices_in(items, o).len() == items.len(),
        indices_in(items, o).no_duplicates(),
        forall|k: int|
            0 <= k < o.len() ==> exists|i: int|
                0 <= i < items.len() && (#[trigger] items[i]).index == #[trigger] indices_in(
                    items,
                    o,
                )[k],
{
    let r = indices_in(items, o);
    assert forall|x: int, y: int| 0 <= x < y < r.len() implies r[x] != r[y] by {
        assert(o[x] != o[y]);
        if o[x] < o[y] {
            assert(items[o[x] as int].index != items[o[y] as int].index);
        } else {
            assert(items[o[y] as int].index != items[o[x] as int].index);
        }
    }
    assert forall|k: int| 0 <= k < o.len() implies exists|i: int|
        0 <= i < items.len() && (#[trigger] items[i]).index == #[trigger] r[k] by {
        assert(items[o[k] as int].index == r[k]);
    }
}

} // verus!
