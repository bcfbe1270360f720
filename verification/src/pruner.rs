//! Deleting tracks and albums, with or without their files.
//!
//! Only files strictly inside one of the managed roots are ever listed for
//! deletion; the others are reported and stay where they are.
use crate::deletion::Job;
use crate::paths::path_is_strictly_inside;
use crate::rows::TrackDeleteInfo;
use crate::text::{copy_all, number_text, signed_text, views};
use vstd::prelude::*;

verus! {

/// What a deletion of tracks or albums is going to do.
#[derive(Debug)]
pub struct DeletePlan {
    pub track_ids: Vec<i64>,
    /// Albums that go after their tracks, ascending.
    pub album_ids: Vec<i64>,
    pub files_to_delete: Vec<String>,
    /// Copies in collections, deleted along with the files.
    pub collection_copies_to_delete: Vec<String>,
    /// Files outside every managed root, which are not touched.
    pub files_outside_managed: Vec<String>,
    /// Up to three affected albums.
    pub album_summary_lines: Vec<String>,
    /// How many more albums are affected.
    pub additional_albums: usize,
}

/// What a deletion came to.
#[derive(Debug)]
pub struct DeleteReport {
    pub files_deleted: u32,
    pub tracks_deleted: u32,
    pub albums_deleted: u32,
    pub dirs_cleaned: u32,
    pub errors: Vec<(String, String)>,
}

impl Default for DeletePlan {
    fn default() -> (r: Self)
        ensures
            r.track_ids@.len() == 0,
            r.album_ids@.len() == 0,
            r.files_to_delete@.len() == 0,
            r.collection_copies_to_delete@.len() == 0,
            r.files_outside_managed@.len() == 0,
            r.album_summary_lines@.len() == 0,
            r.additional_albums == 0,
    {
        DeletePlan {
            track_ids: Vec::new(),
            album_ids: Vec::new(),
            files_to_delete: Vec::new(),
            collection_copies_to_delete: Vec::new(),
            files_outside_managed: Vec::new(),
            album_summary_lines: Vec::new(),
            additional_albums: 0,
        }
    }
}

impl DeletePlan {
    /// Whether nothing is to be deleted.
    pub fn is_empty(&self) -> (r: bool)
        ensures
            r == (self.track_ids@.len() == 0 && self.album_ids@.len() == 0),
    {
        self.track_ids.is_empty() && self.album_ids.is_empty()
    }

    /// How many files could be deleted, copies included.
    pub fn deletable_file_count(&self) -> (r: usize)
        requires
            self.files_to_delete@.len() + self.collection_copies_to_delete@.len() <= usize::MAX,
        ensures
            r == self.files_to_delete@.len() + self.collection_copies_to_delete@.len(),
    {
        self.files_to_delete.len() + self.collection_copies_to_delete.len()
    }
}

/// Every file of a track: its own, if it has one, then its copies.
pub open spec fn files_of(info: TrackDeleteInfo) -> Seq<Seq<char>> {
    if info.file_path@.len() == 0 {
        views(info.collection_copies@)
    } else {
        seq![info.file_path@] + views(info.collection_copies@)
    }
}

/// Those of the first `n` paths of `list` that lie strictly inside a root, or
/// (with `inside` false) those that do not.
pub open spec fn sifted(
    list: Seq<Seq<char>>,
    roots: Seq<Seq<char>>,
    inside: bool,
    n: int,
) -> Seq<Seq<char>>
    decreases n,
{
    if n <= 0 {
        Seq::empty()
    } else {
        let before = sifted(list, roots, inside, n - 1);
        if crate::paths::below_any(list[n - 1], roots) == inside {
            before.push(list[n - 1])
        } else {
            before
        }
    }
}

/// The own files of the first `n` tracks.
pub open spec fn own_files(infos: Seq<TrackDeleteInfo>, n: int) -> Seq<Seq<char>>
    decreases n,
{
    if n <= 0 {
        Seq::empty()
    } else if infos[n - 1].file_path@.len() == 0 {
        own_files(infos, n - 1)
    } else {
        own_files(infos, n - 1).push(infos[n - 1].file_path@)
    }
}

/// The copies of the first `n` tracks.
pub open spec fn copies_of(infos: Seq<TrackDeleteInfo>, n: int) -> Seq<Seq<char>>
    decreases n,
{
    if n <= 0 {
        Seq::empty()
    } else {
        copies_of(infos, n - 1) + views(infos[n - 1].collection_copies@)
    }
}

/// All files of the first `n` tracks, track by track.
pub open spec fn all_files(infos: Seq<TrackDeleteInfo>, n: int) -> Seq<Seq<char>>
    decreases n,
{
    if n <= 0 { Seq::empty() } else { all_files(infos, n - 1) + files_of(infos[n - 1]) }
}

/// The paths of `list` strictly inside a root, or those that are not.
pub open spec fn sift(list: Seq<Seq<char>>, roots: Seq<Seq<char>>, inside: bool) -> Seq<Seq<char>> {
    sifted(list, roots, inside, list.len() as int)
}

pub proof fn lemma_sift_push(list: Seq<Seq<char>>, p: Seq<char>, roots: Seq<Seq<char>>, inside: bool)
    ensures
        sift(list.push(p), roots, inside) == if crate::paths::below_any(p, roots) == inside {
            sift(list, roots, inside).push(p)
        } else {
            sift(list, roots, inside)
        },
{
    lemma_sifted_prefix(list, list.push(p), roots, inside, list.len() as int);
}

proof fn lemma_sifted_prefix(
    a: Seq<Seq<char>>,
    b: Seq<Seq<char>>,
    roots: Seq<Seq<char>>,
    inside: bool,
    n: int,
)
    requires
        n <= a.len(),
        n <= b.len(),
        forall|i: int| 0 <= i < n ==> a[i] == b[i],
    ensures
        sifted(a, roots, inside, n) == sifted(b, roots, inside, n),
    decreases n,
{
    if n > 0 {
        lemma_sifted_prefix(a, b, roots, inside, n - 1);
    }
}

/// How many of the first `n` tracks are of an album.
pub open spec fn album_count(infos: Seq<TrackDeleteInfo>, id: i64, n: int) -> nat
    decreases n,
{
    if n <= 0 {
        0
    } else {
        album_count(infos, id, n - 1) + if infos[n - 1].album_id == Some(id) { 1nat } else { 0nat }
    }
}

/// Whether `counts` lists by ascending id the albums of the tracks and those
/// of `more`, each with the number of its tracks.
pub open spec fn counted(
    counts: Seq<(i64, u32)>,
    infos: Seq<TrackDeleteInfo>,
    n: int,
    more: Seq<i64>,
) -> bool {
    &&& forall|i: int, j: int|
        0 <= i < j < counts.len() ==> (#[trigger] counts[i]).0 < (#[trigger] counts[j]).0
    &&& forall|i: int|
        0 <= i < counts.len() ==> (#[trigger] counts[i]).1 == capped(
            album_count(infos, counts[i].0, n),
        )
    &&& forall|i: int|
        0 <= i < counts.len() ==> album_count(infos, (#[trigger] counts[i]).0, n) > 0
            || more.contains(counts[i].0)
    &&& forall|k: int|
        0 <= k < n && (#[trigger] infos[k]).album_id is Some ==> listed(counts, infos[k].album_id->0)
    &&& forall|k: int| 0 <= k < more.len() ==> listed(counts, #[trigger] more[k])
}

/// Whether an album is among `counts`.
pub open spec fn listed(counts: Seq<(i64, u32)>, id: i64) -> bool {
    exists|i: int| 0 <= i < counts.len() && (#[trigger] counts[i]).0 == id
}

/// A number as far as it goes in 32 bits.
pub open spec fn capped(n: nat) -> u32 {
    if n <= u32::MAX { n as u32 } else { u32::MAX }
}

/// Artist and title of an album, by its id.
pub open spec fn label_of(labels: Seq<(i64, String, String)>, id: i64) -> Option<
    (Seq<char>, Seq<char>),
>
    decreases labels.len(),
{
    if labels.len() == 0 {
        None
    } else if labels[0].0 == id {
        Some((labels[0].1@, labels[0].2@))
    } else {
        label_of(labels.skip(1), id)
    }
}

/// How an affected album is shown.
pub open spec fn summary_line(labels: Seq<(i64, String, String)>, id: i64, n: u32) -> Seq<char> {
    match label_of(labels, id) {
        Some((artist, title)) => artist + " / "@ + title + " ("@ + crate::text::decimal(n as nat)
            + ")"@,
        None => "(album #"@ + crate::text::signed_decimal(id as int) + ") ("@ + crate::text::decimal(
            n as nat,
        ) + ")"@,
    }
}

/// Whether the plan shows the first three albums, and how many more there are.
pub open spec fn summarised(
    plan: DeletePlan,
    counts: Seq<(i64, u32)>,
    labels: Seq<(i64, String, String)>,
) -> bool {
    let shown = if counts.len() < 3 { counts.len() as int } else { 3 };
    &&& plan.album_summary_lines@.len() == shown
    &&& plan.additional_albums == counts.len() - shown
    &&& forall|i: int|
        0 <= i < shown ==> (#[trigger] plan.album_summary_lines@[i])@ == summary_line(
            labels,
            counts[i].0,
            counts[i].1,
        )
}

/// Whether the plan lists the tracks and their files, sorted by whether they
/// lie strictly inside a root.
pub open spec fn lists_files(
    plan: DeletePlan,
    infos: Seq<TrackDeleteInfo>,
    n: int,
    roots: Seq<Seq<char>>,
) -> bool {
    &&& plan.track_ids@ == infos.take(n).map_values(|t: TrackDeleteInfo| t.track_id)
    &&& views(plan.files_to_delete@) == sift(own_files(infos, n), roots, true)
    &&& views(plan.collection_copies_to_delete@) == sift(copies_of(infos, n), roots, true)
    &&& views(plan.files_outside_managed@) == sift(all_files(infos, n), roots, false)
}

/// Puts a file with those to delete, or with those outside.
fn classify_file(
    plan: &mut DeletePlan,
    path: &String,
    managed_roots: &Vec<String>,
    is_collection_copy: bool,
)
    ensures
        final(plan).track_ids == old(plan).track_ids,
        final(plan).album_ids == old(plan).album_ids,
        final(plan).album_summary_lines == old(plan).album_summary_lines,
        final(plan).additional_albums == old(plan).additional_albums,
        ({
            let inside = crate::paths::below_any(path@, views(managed_roots@));
            &&& views(final(plan).files_to_delete@) == if inside && !is_collection_copy {
                views(old(plan).files_to_delete@).push(path@)
            } else {
                views(old(plan).files_to_delete@)
            }
            &&& views(final(plan).collection_copies_to_delete@) == if inside && is_collection_copy {
                views(old(plan).collection_copies_to_delete@).push(path@)
            } else {
                views(old(plan).collection_copies_to_delete@)
            }
            &&& views(final(plan).files_outside_managed@) == if inside {
                views(old(plan).files_outside_managed@)
            } else {
                views(old(plan).files_outside_managed@).push(path@)
            }
        }),
{
    if path_is_strictly_inside(path.as_str(), managed_roots) {
        if is_collection_copy {
            plan.collection_copies_to_delete.push(path.clone());
            assert(views(plan.collection_copies_to_delete@) =~= views(
                old(plan).collection_copies_to_delete@,
            ).push(path@));
        } else {
            plan.files_to_delete.push(path.clone());
            assert(views(plan.files_to_delete@) =~= views(old(plan).files_to_delete@).push(path@));
        }
    } else {
        plan.files_outside_managed.push(path.clone());
        assert(views(plan.files_outside_managed@) =~= views(old(plan).files_outside_managed@).push(
            path@,
        ));
    }
}

/// Lists one more track with its files.
fn add_track(
    plan: &mut DeletePlan,
    infos: &Vec<TrackDeleteInfo>,
    n: usize,
    managed_roots: &Vec<String>,
)
    requires
        n < infos@.len(),
        lists_files(*old(plan), infos@, n as int, views(managed_roots@)),
    ensures
        lists_files(*final(plan), infos@, n + 1, views(managed_roots@)),
        final(plan).album_ids == old(plan).album_ids,
        final(plan).album_summary_lines == old(plan).album_summary_lines,
        final(plan).additional_albums == old(plan).additional_albums,
{
    let ghost roots = views(managed_roots@);
    let info = &infos[n];
    plan.track_ids.push(info.track_id);
    proof {
        assert(infos@.take(n + 1) =~= infos@.take(n as int).push(infos@[n as int]));
        assert(plan.track_ids@ =~= infos@.take(n + 1).map_values(|t: TrackDeleteInfo| t.track_id));
    }
    if !info.file_path.as_str().is_empty() {
        classify_file(plan, &info.file_path, managed_roots, false);
        proof {
            lemma_sift_push(own_files(infos@, n as int), info.file_path@, roots, true);
            lemma_sift_push(all_files(infos@, n as int), info.file_path@, roots, false);
        }
    }
    let ghost own = if info.file_path@.len() == 0 {
        Seq::<Seq<char>>::empty()
    } else {
        seq![info.file_path@]
    };
    let ghost cv = views(info.collection_copies@);
    let ghost c0 = copies_of(infos@, n as int);
    let ghost a0 = all_files(infos@, n as int) + own;
    let mut j: usize = 0;
    proof {
        assert(c0 + cv.take(0) =~= c0);
        assert(a0 + cv.take(0) =~= a0);
        assert(own.len() == 0 ==> a0 =~= all_files(infos@, n as int));
        assert(own.len() == 1 ==> a0 =~= all_files(infos@, n as int).push(info.file_path@));
    }
    while j < info.collection_copies.len()
        invariant
            j <= info.collection_copies@.len(),
            roots == views(managed_roots@),
            cv == views(info.collection_copies@),
            views(plan.files_to_delete@) == sift(own_files(infos@, n + 1), roots, true),
            views(plan.collection_copies_to_delete@) == sift(c0 + cv.take(j as int), roots, true),
            views(plan.files_outside_managed@) == sift(a0 + cv.take(j as int), roots, false),
            plan.track_ids@ == infos@.take(n + 1).map_values(|t: TrackDeleteInfo| t.track_id),
            plan.album_ids == old(plan).album_ids,
            plan.album_summary_lines == old(plan).album_summary_lines,
            plan.additional_albums == old(plan).additional_albums,
        decreases info.collection_copies@.len() - j,
    {
        classify_file(plan, &info.collection_copies[j], managed_roots, true);
        proof {
            let p = info.collection_copies@[j as int]@;
            lemma_sift_push(c0 + cv.take(j as int), p, roots, true);
            lemma_sift_push(a0 + cv.take(j as int), p, roots, false);
            assert(c0 + cv.take(j + 1) =~= (c0 + cv.take(j as int)).push(p));
            assert(a0 + cv.take(j + 1) =~= (a0 + cv.take(j as int)).push(p));
        }
        j += 1;
    }
    proof {
        assert(cv.take(j as int) =~= cv);
        assert(a0 + cv =~= all_files(infos@, n as int) + files_of(infos@[n as int])) by {
            if own.len() == 0 {
                assert(all_files(infos@, n as int) + own + cv =~= all_files(infos@, n as int) + cv);
            } else {
                assert(all_files(infos@, n as int) + own + cv =~= all_files(infos@, n as int) + (own
                    + cv));
            }
        }
    }
}

/// Counts a track of an album, or (with `track` false) lists the album.
fn count_album(
    counts: &mut Vec<(i64, u32)>,
    id: i64,
    track: bool,
    Ghost(infos): Ghost<Seq<TrackDeleteInfo>>,
    Ghost(n): Ghost<int>,
    Ghost(more): Ghost<Seq<i64>>,
)
    requires
        0 <= n,
        counted(old(counts)@, infos, n, more),
        track ==> n < infos.len() && infos[n].album_id == Some(id),
    ensures
        track ==> counted(final(counts)@, infos, n + 1, more),
        !track ==> counted(final(counts)@, infos, n, more.push(id)),
{
    let ghost was = counts@;
    let ghost n2 = if track { n + 1 } else { n };
    let ghost more2 = if track { more } else { more.push(id) };
    let mut at: usize = 0;
    while at < counts.len() && counts[at].0 < id
        invariant
            at <= counts@.len(),
            counts@ == was,
            forall|k: int| 0 <= k < at ==> (#[trigger] was[k]).0 < id,
        decreases counts@.len() - at,
    {
        at += 1;
    }
    proof {
        assert forall|x: i64| #[trigger] album_count(infos, x, n2) == album_count(infos, x, n) + (if track
            && x == id {
            1nat
        } else {
            0nat
        }) by {}
        assert forall|x: i64| more.contains(x) implies #[trigger] more2.contains(x) by {
            let k = choose|k: int| 0 <= k < more.len() && more[k] == x;
            assert(more2[k] == x);
        }
        if !track {
            assert(more2[more.len() as int] == id);
        }
    }
    if at < counts.len() && counts[at].0 == id {
        if track {
            let c: u32 = counts[at].1;
            let next: u32 = if c < u32::MAX {
                c + 1
            } else {
                c
            };
            counts.set(at, (id, next));
        }
        proof {
            assert forall|x: i64| #[trigger] listed(was, x) implies listed(counts@, x) by {
                let i = choose|i: int| 0 <= i < was.len() && (#[trigger] was[i]).0 == x;
                assert(counts@[i].0 == x);
            }
            assert(counts@[at as int].0 == id);
            assert(listed(counts@, id));
        }
    } else {
        counts.insert(
            at,
            (
                id,
                if track {
                    1
                } else {
                    0
                },
            ),
        );
        proof {
            assert(album_count(infos, id, n) == 0) by {
                if album_count(infos, id, n) > 0 {
                    lemma_album_seen(infos, id, n);
                    let k = choose|k: int|
                        0 <= k < n && (#[trigger] infos[k]).album_id == Some(id);
                    assert(listed(was, id));
                    let i = choose|i: int| 0 <= i < was.len() && (#[trigger] was[i]).0 == id;
                    if i > at {
                        assert(was[at as int].0 < was[i].0);
                    }
                }
            }
            assert forall|x: i64| #[trigger] listed(was, x) implies listed(counts@, x) by {
                let i = choose|i: int| 0 <= i < was.len() && (#[trigger] was[i]).0 == x;
                assert(counts@[if i < at { i } else { i + 1 }].0 == x);
            }
            assert(counts@[at as int].0 == id);
            assert(listed(counts@, id));
            assert forall|i: int, j: int| 0 <= i < j < counts@.len() implies (
            #[trigger] counts@[i]).0 < (#[trigger] counts@[j]).0 by {
                if i != at {
                    assert(counts@[i] == was[if i < at { i } else { i - 1 }]);
                }
                if j != at {
                    assert(counts@[j] == was[if j < at { j } else { j - 1 }]);
                }
                if i == at && j > at {
                    assert(was[at as int].0 > id);
                    if j - 1 > at {
                        assert(was[at as int].0 < was[j - 1].0);
                    }
                }
            }
            assert forall|i: int| 0 <= i < counts@.len() implies (#[trigger] counts@[i]).1 == capped(
                album_count(infos, counts@[i].0, n2),
            ) && (album_count(infos, counts@[i].0, n2) > 0 || more2.contains(counts@[i].0)) by {
                if i != at {
                    let w = if i < at { i } else { i - 1 };
                    assert(counts@[i] == was[w]);
                    if i > at {
                        if w > at {
                            assert(was[at as int].0 < was[w].0);
                        }
                    }
                }
            }
        }
    }
}

proof fn lemma_album_seen(infos: Seq<TrackDeleteInfo>, id: i64, n: int)
    requires
        album_count(infos, id, n) > 0,
    ensures
        exists|k: int| 0 <= k < n && (#[trigger] infos[k]).album_id == Some(id),
    decreases n,
{
    if n > 0 && infos[n - 1].album_id != Some(id) {
        lemma_album_seen(infos, id, n - 1);
        let k = choose|k: int| 0 <= k < n - 1 && (#[trigger] infos[k]).album_id == Some(id);
        assert(0 <= k < n);
    } else if n > 0 {
        assert(infos[n - 1].album_id == Some(id));
    }
}

fn find_label(labels: &Vec<(i64, String, String)>, id: i64) -> (r: Option<usize>)
    ensures
        match r {
            Some(i) => i < labels@.len() && label_of(labels@, id) == Some(
                (labels@[i as int].1@, labels@[i as int].2@),
            ),
            None => label_of(labels@, id) is None,
        },
{
    let mut i: usize = 0;
    assert(labels@.skip(0) =~= labels@);
    while i < labels.len()
        invariant
            i <= labels@.len(),
            label_of(labels@, id) == label_of(labels@.skip(i as int), id),
        decreases labels@.len() - i,
    {
        assert(labels@.skip(i as int)[0] == labels@[i as int]);
        if labels[i].0 == id {
            return Some(i);
        }
        assert(labels@.skip(i as int).skip(1) =~= labels@.skip(i + 1));
        i += 1;
    }
    None
}

fn line_for(labels: &Vec<(i64, String, String)>, id: i64, n: u32) -> (r: String)
    ensures
        r@ == summary_line(labels@, id, n),
{
    let count = number_text(n as u64);
    match find_label(labels, id) {
        Some(i) => {
            let mut s = labels[i].1.clone();
            s.append(" / ");
            s.append(labels[i].2.as_str());
            s.append(" (");
            s.append(count.as_str());
            s.append(")");
            s
        },
        None => {
            let mut s = "(album #".to_owned();
            let number = signed_text(id);
            s.append(number.as_str());
            s.append(") (");
            s.append(count.as_str());
            s.append(")");
            s
        },
    }
}

fn fill_album_summary(
    plan: &mut DeletePlan,
    counts: &Vec<(i64, u32)>,
    labels: &Vec<(i64, String, String)>,
)
    ensures
        summarised(*final(plan), counts@, labels@),
        final(plan).track_ids == old(plan).track_ids,
        final(plan).album_ids == old(plan).album_ids,
        final(plan).files_to_delete == old(plan).files_to_delete,
        final(plan).collection_copies_to_delete == old(plan).collection_copies_to_delete,
        final(plan).files_outside_managed == old(plan).files_outside_managed,
{
    let shown: usize = if counts.len() < 3 {
        counts.len()
    } else {
        3
    };
    let mut lines: Vec<String> = Vec::new();
    let mut i: usize = 0;
    while i < shown
        invariant
            i <= shown <= counts@.len(),
            lines@.len() == i,
            forall|k: int|
                0 <= k < i ==> (#[trigger] lines@[k])@ == summary_line(
                    labels@,
                    counts@[k].0,
                    counts@[k].1,
                ),
        decreases shown - i,
    {
        lines.push(line_for(labels, counts[i].0, counts[i].1));
        i += 1;
    }
    plan.album_summary_lines = lines;
    plan.additional_albums = counts.len() - shown;
}

/// Lists the tracks with their files, and counts their albums.
fn list_tracks(
    infos: &Vec<TrackDeleteInfo>,
    managed_roots: &Vec<String>,
) -> (r: (DeletePlan, Vec<(i64, u32)>))
    ensures
        lists_files(r.0, infos@, infos@.len() as int, views(managed_roots@)),
        r.0.album_ids@.len() == 0,
        counted(r.1@, infos@, infos@.len() as int, Seq::empty()),
{
    let mut plan = DeletePlan::default();
    let mut counts: Vec<(i64, u32)> = Vec::new();
    let mut i: usize = 0;
    proof {
        assert(plan.track_ids@ =~= infos@.take(0).map_values(|t: TrackDeleteInfo| t.track_id));
        assert(views(plan.files_to_delete@) =~= sift(own_files(infos@, 0), views(managed_roots@), true));
        assert(views(plan.collection_copies_to_delete@) =~= sift(
            copies_of(infos@, 0),
            views(managed_roots@),
            true,
        ));
        assert(views(plan.files_outside_managed@) =~= sift(
            all_files(infos@, 0),
            views(managed_roots@),
            false,
        ));
    }
    while i < infos.len()
        invariant
            i <= infos@.len(),
            lists_files(plan, infos@, i as int, views(managed_roots@)),
            plan.album_ids@.len() == 0,
            counted(counts@, infos@, i as int, Seq::empty()),
        decreases infos@.len() - i,
    {
        add_track(&mut plan, infos, i, managed_roots);
        match infos[i].album_id {
            Some(id) => {
                count_album(
                    &mut counts,
                    id,
                    true,
                    Ghost(infos@),
                    Ghost(i as int),
                    Ghost(Seq::empty()),
                );
            },
            None => {
                assert forall|x: i64| #[trigger] album_count(infos@, x, i + 1) == album_count(
                    infos@,
                    x,
                    i as int,
                ) by {}
            },
        }
        i += 1;
    }
    (plan, counts)
}

/// Plans the deletion of tracks. Their albums stay.
pub fn plan_delete_tracks(
    infos: &Vec<TrackDeleteInfo>,
    managed_roots: &Vec<String>,
    labels: &Vec<(i64, String, String)>,
) -> (r: DeletePlan)
    ensures
        lists_files(r, infos@, infos@.len() as int, views(managed_roots@)),
        r.album_ids@.len() == 0,
        exists|counts: Seq<(i64, u32)>| #[trigger]
            counted(counts, infos@, infos@.len() as int, Seq::empty()) && summarised(
                r,
                counts,
                labels@,
            ),
{
    let (mut plan, counts) = list_tracks(infos, managed_roots);
    fill_album_summary(&mut plan, &counts, labels);
    plan
}

/// Whether `r` holds the ids of `ids`, ascending and each once.
pub open spec fn ascending_ids(r: Seq<i64>, ids: Seq<i64>) -> bool {
    &&& forall|i: int, j: int| 0 <= i < j < r.len() ==> #[trigger] r[i] < #[trigger] r[j]
    &&& forall|x: i64| #[trigger] r.contains(x) <==> ids.contains(x)
}

fn order_ids(ids: &Vec<i64>) -> (r: Vec<i64>)
    ensures
        ascending_ids(r@, ids@),
{
    let mut out: Vec<i64> = Vec::new();
    let mut i: usize = 0;
    while i < ids.len()
        invariant
            i <= ids@.len(),
            ascending_ids(out@, ids@.take(i as int)),
        decreases ids@.len() - i,
    {
        let ghost was = out@;
        let ghost seen = ids@.take(i as int);
        let x: i64 = ids[i];
        let mut at: usize = 0;
        while at < out.len() && out[at] < x
            invariant
                at <= out@.len(),
                out@ == was,
                forall|k: int| 0 <= k < at ==> #[trigger] was[k] < x,
            decreases out@.len() - at,
        {
            at += 1;
        }
        let ghost now = ids@.take(i + 1);
        proof {
            assert(now =~= seen.push(x));
            assert forall|y: i64| #[trigger] now.contains(y) <==> (seen.contains(y) || y == x) by {
                if seen.contains(y) {
                    let k = choose|k: int| 0 <= k < seen.len() && seen[k] == y;
                    assert(now[k] == y);
                }
                assert(now[i as int] == x);
            }
        }
        if at < out.len() && out[at] == x {
            assert(was.contains(x)) by {
                assert(was[at as int] == x);
            }
        } else {
            out.insert(at, x);
            proof {
                assert forall|y: i64| #[trigger] out@.contains(y) <==> (was.contains(y) || y == x) by {
                    if was.contains(y) {
                        let k = choose|k: int| 0 <= k < was.len() && was[k] == y;
                        assert(out@[if k < at { k } else { k + 1 }] == y);
                    }
                    assert(out@[at as int] == x);
                    if out@.contains(y) && y != x {
                        let k = choose|k: int| 0 <= k < out@.len() && out@[k] == y;
                        assert(was[if k < at { k } else { k - 1 }] == y);
                    }
                }
                assert forall|a: int, b: int| 0 <= a < b < out@.len() implies #[trigger] out@[a]
                    < #[trigger] out@[b] by {
                    if a != at {
                        assert(out@[a] == was[if a < at { a } else { a - 1 }]);
                    }
                    if b != at {
                        assert(out@[b] == was[if b < at { b } else { b - 1 }]);
                    }
                    if a == at && b - 1 > at {
                        assert(was[at as int] < was[b - 1]);
                    }
                }
            }
        }
        i += 1;
    }
    assert(ids@.take(i as int) =~= ids@);
    out
}

/// Plans the deletion of albums with all their tracks.
pub fn plan_delete_albums(
    album_ids: &Vec<i64>,
    infos: &Vec<TrackDeleteInfo>,
    managed_roots: &Vec<String>,
    labels: &Vec<(i64, String, String)>,
) -> (r: DeletePlan)
    ensures
        lists_files(r, infos@, infos@.len() as int, views(managed_roots@)),
        ascending_ids(r.album_ids@, album_ids@),
        exists|counts: Seq<(i64, u32)>| #[trigger]
            counted(counts, infos@, infos@.len() as int, album_ids@) && summarised(
                r,
                counts,
                labels@,
            ),
{
    let (mut plan, mut counts) = list_tracks(infos, managed_roots);
    let mut i: usize = 0;
    assert(album_ids@.take(0) =~= Seq::<i64>::empty());
    while i < album_ids.len()
        invariant
            i <= album_ids@.len(),
            counted(counts@, infos@, infos@.len() as int, album_ids@.take(i as int)),
        decreases album_ids@.len() - i,
    {
        count_album(
            &mut counts,
            album_ids[i],
            false,
            Ghost(infos@),
            Ghost(infos@.len() as int),
            Ghost(album_ids@.take(i as int)),
        );
        i += 1;
        assert(album_ids@.take(i as int) =~= album_ids@.take(i - 1).push(album_ids@[i - 1]));
    }
    assert(album_ids@.take(i as int) =~= album_ids@);
    plan.album_ids = order_ids(album_ids);
    fill_album_summary(&mut plan, &counts, labels);
    plan
}

/// What carrying out the plan deletes. Without `delete_files` the files stay
/// and only the rows go.
pub fn deletion_job(plan: &DeletePlan, delete_files: bool, roots: &Vec<String>) -> (r: Job)
    ensures
        views(r.files@) == (if delete_files {
            views(plan.files_to_delete@) + views(plan.collection_copies_to_delete@)
        } else {
            Seq::empty()
        }),
        r.promotions@.len() == 0,
        r.track_ids@ == plan.track_ids@,
        r.album_ids@ == plan.album_ids@,
        r.collection is None,
        r.roots@ == roots@,
{
    let mut files: Vec<String> = Vec::new();
    if delete_files {
        files = copy_all(&plan.files_to_delete);
        let mut copies = copy_all(&plan.collection_copies_to_delete);
        files.append(&mut copies);
    }
    assert(views(files@) =~= if delete_files {
        views(plan.files_to_delete@) + views(plan.collection_copies_to_delete@)
    } else {
        Seq::empty()
    });
    Job {
        files,
        promotions: Vec::new(),
        track_ids: plan.track_ids.clone(),
        album_ids: plan.album_ids.clone(),
        collection: None,
        roots: copy_all(roots),
    }
}

/// A planned deletion lists only files strictly inside a managed root.
pub proof fn law_planned_files_are_managed(
    list: Seq<Seq<char>>,
    roots: Seq<Seq<char>>,
    n: int,
    i: int,
)
    requires
        n <= list.len(),
        0 <= i < sifted(list, roots, true, n).len(),
    ensures
        crate::paths::below_any(sifted(list, roots, true, n)[i], roots),
    decreases n,
{
    let before = sifted(list, roots, true, n - 1);
    if i < before.len() {
        law_planned_files_are_managed(list, roots, n - 1, i);
    }
}

/// Every file of a track is either listed for deletion or reported as outside
/// the managed roots, never both.
pub proof fn law_every_file_is_classified(list: Seq<Seq<char>>, roots: Seq<Seq<char>>, n: int)
    requires
        0 <= n <= list.len(),
    ensures
        sifted(list, roots, true, n).len() + sifted(list, roots, false, n).len() == n,
    decreases n,
{
    if n > 0 {
        law_every_file_is_classified(list, roots, n - 1);
    }
}


proof fn lemma_sifted_add(
    a: Seq<Seq<char>>,
    b: Seq<Seq<char>>,
    roots: Seq<Seq<char>>,
    inside: bool,
)
    ensures
        sift(a + b, roots, inside) == sift(a, roots, inside) + sift(b, roots, inside),
    decreases b.len(),
{
    if b.len() == 0 {
        assert(a + b =~= a);
        assert(sift(a, roots, inside) + Seq::<Seq<char>>::empty() =~= sift(a, roots, inside));
    } else {
        let d = b.drop_last();
        lemma_sifted_add(a, d, roots, inside);
        assert(d.push(b.last()) =~= b);
        assert((a + d).push(b.last()) =~= a + b);
        lemma_sift_push(d, b.last(), roots, inside);
        lemma_sift_push(a + d, b.last(), roots, inside);
        assert(sift(a, roots, inside) + sift(d, roots, inside).push(b.last()) =~= (sift(
            a,
            roots,
            inside,
        ) + sift(d, roots, inside)).push(b.last()));
    }
}

/// Files are told apart one by one, in their order: a file counts as inside
/// exactly where its path goes on behind that of a root.
pub proof fn law_files_below_a_root_are_inside(
    a: Seq<Seq<char>>,
    b: Seq<Seq<char>>,
    p: Seq<char>,
    roots: Seq<Seq<char>>,
    inside: bool,
)
    ensures
        sift(a + b, roots, inside) == sift(a, roots, inside) + sift(b, roots, inside),
        (exists|i: int|
            0 <= i < roots.len() && crate::paths::comps(p).len() > crate::paths::comps(
                #[trigger] roots[i],
            ).len() && crate::paths::comps(p).take(crate::paths::comps(roots[i]).len() as int)
                == crate::paths::comps(roots[i])) ==> sift(seq![p], roots, true) == seq![p] && sift(
            seq![p],
            roots,
            false,
        ).len() == 0,
        (forall|i: int|
            0 <= i < roots.len() ==> crate::paths::comps(p).len() <= crate::paths::comps(
                #[trigger] roots[i],
            ).len() || crate::paths::comps(p).take(crate::paths::comps(roots[i]).len() as int)
                != crate::paths::comps(roots[i])) ==> sift(seq![p], roots, false) == seq![p]
            && sift(seq![p], roots, true).len() == 0,
{
    lemma_sifted_add(a, b, roots, inside);
    assert(Seq::<Seq<char>>::empty().push(p) =~= seq![p]);
    lemma_sift_push(Seq::empty(), p, roots, true);
    lemma_sift_push(Seq::empty(), p, roots, false);
    assert(sift(Seq::empty(), roots, true) =~= Seq::<Seq<char>>::empty());
    assert(sift(Seq::empty(), roots, false) =~= Seq::<Seq<char>>::empty());
    if exists|i: int|
        0 <= i < roots.len() && crate::paths::comps(p).len() > crate::paths::comps(
            #[trigger] roots[i],
        ).len() && crate::paths::comps(p).take(crate::paths::comps(roots[i]).len() as int)
            == crate::paths::comps(roots[i]) {
        let i = choose|i: int|
            0 <= i < roots.len() && crate::paths::comps(p).len() > crate::paths::comps(
                #[trigger] roots[i],
            ).len() && crate::paths::comps(p).take(crate::paths::comps(roots[i]).len() as int)
                == crate::paths::comps(roots[i]);
        assert(crate::paths::below(p, roots[i]));
        assert(crate::paths::below_any(p, roots));
        assert(sift(seq![p], roots, true) =~= seq![p]);
    }
    if forall|i: int|
        0 <= i < roots.len() ==> crate::paths::comps(p).len() <= crate::paths::comps(
            #[trigger] roots[i],
        ).len() || crate::paths::comps(p).take(crate::paths::comps(roots[i]).len() as int)
            != crate::paths::comps(roots[i]) {
        assert forall|i: int| 0 <= i < roots.len() implies !crate::paths::below(
            p,
            #[trigger] roots[i],
        ) by {
            let c = crate::paths::comps(p);
            let r = crate::paths::comps(roots[i]);
            if c.len() == r.len() {
                assert(c.take(r.len() as int) =~= c);
            }
        }
        assert(!crate::paths::below_any(p, roots));
        assert(sift(seq![p], roots, false) =~= seq![p]);
    }
}

proof fn lemma_lists_prefix(a: Seq<TrackDeleteInfo>, b: Seq<TrackDeleteInfo>, n: int)
    requires
        n <= a.len(),
        n <= b.len(),
        forall|i: int| 0 <= i < n ==> a[i] == b[i],
    ensures
        own_files(a, n) == own_files(b, n),
        copies_of(a, n) == copies_of(b, n),
        all_files(a, n) == all_files(b, n),
    decreases n,
{
    if n > 0 {
        lemma_lists_prefix(a, b, n - 1);
    }
}

proof fn lemma_lists_add(a: Seq<TrackDeleteInfo>, b: Seq<TrackDeleteInfo>, n: int)
    requires
        0 <= n <= b.len(),
    ensures
        own_files(a + b, a.len() + n) == own_files(a, a.len() as int) + own_files(b, n),
        copies_of(a + b, a.len() + n) == copies_of(a, a.len() as int) + copies_of(b, n),
        all_files(a + b, a.len() + n) == all_files(a, a.len() as int) + all_files(b, n),
    decreases n,
{
    let o = own_files(a, a.len() as int);
    let c = copies_of(a, a.len() as int);
    let f = all_files(a, a.len() as int);
    if n == 0 {
        lemma_lists_prefix(a, a + b, a.len() as int);
        let none = Seq::<Seq<char>>::empty();
        assert(o + none =~= o && c + none =~= c && f + none =~= f);
    } else {
        lemma_lists_add(a, b, n - 1);
        let t = b[n - 1];
        assert((a + b)[a.len() + n - 1] == t);
        assert((o + own_files(b, n - 1)).push(t.file_path@) =~= o + own_files(b, n - 1).push(
            t.file_path@,
        ));
        assert(c + copies_of(b, n - 1) + views(t.collection_copies@) =~= c + (copies_of(b, n - 1)
            + views(t.collection_copies@)));
        assert(f + all_files(b, n - 1) + files_of(t) =~= f + (all_files(b, n - 1) + files_of(t)));
    }
}

/// The files of tracks are listed track by track: a track's own file, if it
/// has one, among the files, and its copies among the copies.
pub proof fn law_files_are_listed_track_by_track(
    a: Seq<TrackDeleteInfo>,
    b: Seq<TrackDeleteInfo>,
    t: TrackDeleteInfo,
)
    ensures
        own_files(a + b, (a + b).len() as int) == own_files(a, a.len() as int) + own_files(
            b,
            b.len() as int,
        ),
        copies_of(a + b, (a + b).len() as int) == copies_of(a, a.len() as int) + copies_of(
            b,
            b.len() as int,
        ),
        all_files(a + b, (a + b).len() as int) == all_files(a, a.len() as int) + all_files(
            b,
            b.len() as int,
        ),
        t.file_path@.len() > 0 ==> own_files(seq![t], 1) == seq![t.file_path@],
        t.file_path@.len() == 0 ==> own_files(seq![t], 1).len() == 0,
        copies_of(seq![t], 1) == views(t.collection_copies@),
        all_files(seq![t], 1) == own_files(seq![t], 1) + copies_of(seq![t], 1),
{
    lemma_lists_add(a, b, b.len() as int);
    let none = Seq::<Seq<char>>::empty();
    assert(own_files(seq![t], 0) =~= none);
    assert(copies_of(seq![t], 0) =~= none);
    assert(all_files(seq![t], 0) =~= none);
    assert(none.push(t.file_path@) =~= seq![t.file_path@]);
    assert(none + views(t.collection_copies@) =~= views(t.collection_copies@));
    assert(none + files_of(t) =~= files_of(t));
}

/// A plan for tracks names each of them, in order, and up to three albums: as
/// many as have tracks in it.
pub proof fn law_plans_name_every_track(
    plan: DeletePlan,
    infos: Seq<TrackDeleteInfo>,
    roots: Seq<Seq<char>>,
    counts: Seq<(i64, u32)>,
    labels: Seq<(i64, String, String)>,
    k: int,
)
    requires
        lists_files(plan, infos, infos.len() as int, roots),
        counted(counts, infos, infos.len() as int, Seq::empty()),
        summarised(plan, counts, labels),
    ensures
        plan.track_ids@.len() == infos.len(),
        0 <= k < infos.len() ==> plan.track_ids@[k] == infos[k].track_id,
        plan.album_summary_lines@.len() <= 3,
        plan.additional_albums > 0 ==> plan.album_summary_lines@.len() == 3,
        plan.album_summary_lines@.len() + plan.additional_albums == counts.len(),
        0 <= k < infos.len() && infos[k].album_id is Some ==> counts.len() > 0,
        0 <= k < counts.len() ==> exists|j: int|
            0 <= j < infos.len() && (#[trigger] infos[j]).album_id == Some(counts[k].0),
{
    assert(infos.take(infos.len() as int) =~= infos);
    if 0 <= k < infos.len() && infos[k].album_id is Some {
        assert(listed(counts, infos[k].album_id->0));
    }
    if 0 <= k < counts.len() {
        assert(album_count(infos, counts[k].0, infos.len() as int) > 0);
        lemma_album_seen(infos, counts[k].0, infos.len() as int);
    }
}


/// An album is shown with its artist, its title and how many of its tracks go;
/// one that is not known with its number in place of both. The first entry
/// for an album counts.
pub proof fn law_albums_are_shown_by_artist_and_title(
    labels: Seq<(i64, String, String)>,
    id: i64,
    n: u32,
    k: int,
)
    requires
        0 <= k <= labels.len(),
        forall|j: int| 0 <= j < k ==> (#[trigger] labels[j]).0 != id,
        k < labels.len() ==> labels[k].0 == id,
    ensures
        k < labels.len() ==> summary_line(labels, id, n) == labels[k].1@ + " / "@ + labels[k].2@
            + " ("@ + crate::text::decimal(n as nat) + ")"@,
        k == labels.len() ==> summary_line(labels, id, n) == "(album #"@
            + crate::text::signed_decimal(id as int) + ") ("@ + crate::text::decimal(n as nat)
            + ")"@,
{
    lemma_label_at(labels, id, k);
}

proof fn lemma_label_at(labels: Seq<(i64, String, String)>, id: i64, k: int)
    requires
        0 <= k <= labels.len(),
        forall|j: int| 0 <= j < k ==> (#[trigger] labels[j]).0 != id,
        k < labels.len() ==> labels[k].0 == id,
    ensures
        k < labels.len() ==> label_of(labels, id) == Some((labels[k].1@, labels[k].2@)),
        k == labels.len() ==> label_of(labels, id) is None,
    decreases labels.len(),
{
    if k > 0 {
        let rest = labels.skip(1);
        assert(labels[0].0 != id);
        assert forall|j: int| 0 <= j < k - 1 implies (#[trigger] rest[j]).0 != id by {
            assert(rest[j] == labels[j + 1]);
        }
        lemma_label_at(rest, id, k - 1);
    }
}

} // verus!
