//! Deleting a collection: which of its files go, which tracks would be left
//! without a home, and which tracks get another file as their own.
use crate::deletion::Job;
use crate::paths::path_is_strictly_inside;
use crate::rows::CollectionTrackHomes;
use crate::text::{copy_all, same, views};
use vstd::prelude::*;

verus! {

/// What deleting a collection is going to do.
#[derive(Debug)]
pub struct DeleteCollectionPlan {
    pub collection_id: i64,
    pub collection_name: String,
    pub files_to_delete: Vec<String>,
    pub files_outside_music_dir: Vec<String>,
    /// Tracks that have no other home and go with the collection.
    pub orphaned_track_ids: Vec<i64>,
    /// Tracks that stay, with the copy that becomes their file.
    pub promote_paths: Vec<(i64, String)>,
}

/// What deleting a collection came to.
#[derive(Debug)]
pub struct DeleteCollectionResult {
    pub files_deleted: u32,
    pub dirs_cleaned: u32,
    pub tracks_orphaned_removed: u32,
    pub errors: Vec<(String, String)>,
}

/// A copy of a track in another collection.
#[derive(Debug)]
pub struct OtherCopy {
    pub track_id: i64,
    pub path: String,
    pub exists: bool,
}

/// The first copy of a track among those from `i` on; with `on_disk`, the
/// first that exists.
pub open spec fn first_copy(
    copies: Seq<OtherCopy>,
    track_id: i64,
    on_disk: bool,
    i: int,
) -> Option<Seq<char>>
    decreases copies.len() - i,
{
    if i < 0 || i >= copies.len() {
        None
    } else if copies[i].track_id == track_id && (copies[i].exists || !on_disk) {
        Some(copies[i].path@)
    } else {
        first_copy(copies, track_id, on_disk, i + 1)
    }
}

/// The copy that becomes a track's file: one that is on disk, else the first
/// that is recorded.
pub open spec fn other_copy(copies: Seq<OtherCopy>, track_id: i64) -> Option<Seq<char>> {
    match first_copy(copies, track_id, true, 0) {
        Some(p) => Some(p),
        None => first_copy(copies, track_id, false, 0),
    }
}

/// Whether a track has a home besides the collection.
pub open spec fn has_other_home(h: CollectionTrackHomes) -> bool {
    h.has_album || h.other_collection_count > 0
}

/// The files that go with a track: its copy in the collection and, if it has
/// no other home, its own file.
pub open spec fn files_with(h: CollectionTrackHomes) -> Seq<Seq<char>> {
    let copy = match h.collection_file_path {
        Some(p) => seq![p@],
        None => Seq::empty(),
    };
    if !has_other_home(h) && h.track_file_path@.len() > 0 && crate::text::opt_view(
        h.collection_file_path,
    ) != Some(h.track_file_path@) {
        copy.push(h.track_file_path@)
    } else {
        copy
    }
}

/// The files that go with the first `n` tracks.
pub open spec fn files_with_all(homes: Seq<CollectionTrackHomes>, n: int) -> Seq<Seq<char>>
    decreases n,
{
    if n <= 0 {
        Seq::empty()
    } else {
        files_with_all(homes, n - 1) + files_with(homes[n - 1])
    }
}

/// Those of the first `n` tracks that have no other home.
pub open spec fn homeless(homes: Seq<CollectionTrackHomes>, n: int) -> Seq<i64>
    decreases n,
{
    if n <= 0 {
        Seq::empty()
    } else if has_other_home(homes[n - 1]) {
        homeless(homes, n - 1)
    } else {
        homeless(homes, n - 1).push(homes[n - 1].track_id)
    }
}

/// Whether a track loses its file but keeps another collection, and no album.
pub open spec fn needs_promotion(h: CollectionTrackHomes) -> bool {
    has_other_home(h) && !h.has_album && crate::text::opt_view(h.collection_file_path) == Some(
        h.track_file_path@,
    )
}

/// The promotions among the first `n` tracks.
pub open spec fn promotions(
    homes: Seq<CollectionTrackHomes>,
    copies: Seq<OtherCopy>,
    n: int,
) -> Seq<(i64, Seq<char>)>
    decreases n,
{
    if n <= 0 {
        Seq::empty()
    } else {
        let before = promotions(homes, copies, n - 1);
        let h = homes[n - 1];
        if needs_promotion(h) && other_copy(copies, h.track_id) is Some {
            before.push((h.track_id, other_copy(copies, h.track_id)->0))
        } else {
            before
        }
    }
}

fn find_copy(copies: &Vec<OtherCopy>, track_id: i64, on_disk: bool) -> (r: Option<String>)
    ensures
        crate::text::opt_view(r) == first_copy(copies@, track_id, on_disk, 0),
{
    let mut i: usize = 0;
    while i < copies.len()
        invariant
            i <= copies@.len(),
            first_copy(copies@, track_id, on_disk, 0) == first_copy(
                copies@,
                track_id,
                on_disk,
                i as int,
            ),
        decreases copies@.len() - i,
    {
        if copies[i].track_id == track_id && (copies[i].exists || !on_disk) {
            return Some(copies[i].path.clone());
        }
        i += 1;
    }
    None
}

/// The copy in another collection that can become a track's file.
pub fn find_other_collection_path(copies: &Vec<OtherCopy>, track_id: i64) -> (r: Option<String>)
    ensures
        crate::text::opt_view(r) == other_copy(copies@, track_id),
{
    match find_copy(copies, track_id, true) {
        Some(p) => Some(p),
        None => find_copy(copies, track_id, false),
    }
}

fn classify(
    path: &String,
    roots: &Vec<String>,
    inside: &mut Vec<String>,
    outside: &mut Vec<String>,
    Ghost(list): Ghost<Seq<Seq<char>>>,
)
    requires
        views(old(inside)@) == crate::pruner::sift(list, views(roots@), true),
        views(old(outside)@) == crate::pruner::sift(list, views(roots@), false),
    ensures
        views(final(inside)@) == crate::pruner::sift(list.push(path@), views(roots@), true),
        views(final(outside)@) == crate::pruner::sift(list.push(path@), views(roots@), false),
{
    proof {
        crate::pruner::lemma_sift_push(list, path@, views(roots@), true);
        crate::pruner::lemma_sift_push(list, path@, views(roots@), false);
    }
    if path_is_strictly_inside(path.as_str(), roots) {
        inside.push(path.clone());
        assert(views(inside@) =~= views(old(inside)@).push(path@));
    } else {
        outside.push(path.clone());
        assert(views(outside@) =~= views(old(outside)@).push(path@));
    }
}

/// Whether `r` is the plan for a collection.
pub open spec fn collection_plan(
    r: DeleteCollectionPlan,
    collection_id: i64,
    name: Option<String>,
    homes: Seq<CollectionTrackHomes>,
    copies: Seq<OtherCopy>,
    roots: Seq<Seq<char>>,
) -> bool {
    let n = homes.len() as int;
    &&& r.collection_id == collection_id
    &&& r.collection_name@ == (match name {
        Some(s) => s@,
        None => "(unknown)"@,
    })
    &&& views(r.files_to_delete@) == crate::pruner::sift(files_with_all(homes, n), roots, true)
    &&& views(r.files_outside_music_dir@) == crate::pruner::sift(
        files_with_all(homes, n),
        roots,
        false,
    )
    &&& r.orphaned_track_ids@ == homeless(homes, n)
    &&& crate::organizer::pair_views(r.promote_paths@) == promotions(homes, copies, n)
}

/// Plans the deletion of a collection, with the music directory as the only
/// root.
pub fn plan_delete_collection(
    collection_id: i64,
    name: &Option<String>,
    homes: &Vec<CollectionTrackHomes>,
    copies: &Vec<OtherCopy>,
    music_dir: &str,
) -> (r: DeleteCollectionPlan)
    ensures
        collection_plan(r, collection_id, *name, homes@, copies@, seq![music_dir@]),
{
    let mut roots: Vec<String> = Vec::new();
    roots.push(music_dir.to_owned());
    assert(views(roots@) =~= seq![music_dir@]);
    plan_delete_collection_with_roots(collection_id, name, homes, copies, &roots)
}

/// Plans the deletion of a collection. `copies` are the recorded copies of
/// its tracks in other collections.
pub fn plan_delete_collection_with_roots(
    collection_id: i64,
    name: &Option<String>,
    homes: &Vec<CollectionTrackHomes>,
    copies: &Vec<OtherCopy>,
    managed_roots: &Vec<String>,
) -> (r: DeleteCollectionPlan)
    ensures
        collection_plan(r, collection_id, *name, homes@, copies@, views(managed_roots@)),
{
    let ghost roots = views(managed_roots@);
    let mut inside: Vec<String> = Vec::new();
    let mut outside: Vec<String> = Vec::new();
    let mut orphaned: Vec<i64> = Vec::new();
    let mut promote: Vec<(i64, String)> = Vec::new();
    let mut i: usize = 0;
    assert(views(inside@) =~= crate::pruner::sift(files_with_all(homes@, 0), roots, true));
    assert(views(outside@) =~= crate::pruner::sift(files_with_all(homes@, 0), roots, false));
    assert(crate::organizer::pair_views(promote@) =~= promotions(homes@, copies@, 0));
    while i < homes.len()
        invariant
            i <= homes@.len(),
            roots == views(managed_roots@),
            views(inside@) == crate::pruner::sift(files_with_all(homes@, i as int), roots, true),
            views(outside@) == crate::pruner::sift(files_with_all(homes@, i as int), roots, false),
            orphaned@ == homeless(homes@, i as int),
            crate::organizer::pair_views(promote@) == promotions(homes@, copies@, i as int),
        decreases homes@.len() - i,
    {
        let h = &homes[i];
        let ghost list = files_with_all(homes@, i as int);
        let mut own_is_copy = false;
        if let Some(p) = &h.collection_file_path {
            classify(p, managed_roots, &mut inside, &mut outside, Ghost(list));
            own_is_copy = same(p.as_str(), h.track_file_path.as_str());
        }
        let ghost with_copy = match &h.collection_file_path {
            Some(p) => list.push(p@),
            None => list,
        };
        let other_home = h.has_album || h.other_collection_count > 0;
        if !other_home {
            orphaned.push(h.track_id);
            if !h.track_file_path.as_str().is_empty() && !own_is_copy {
                classify(
                    &h.track_file_path,
                    managed_roots,
                    &mut inside,
                    &mut outside,
                    Ghost(with_copy),
                );
            }
        } else if own_is_copy && !h.has_album {
            if let Some(p) = find_other_collection_path(copies, h.track_id) {
                let ghost before = crate::organizer::pair_views(promote@);
                promote.push((h.track_id, p));
                assert(crate::organizer::pair_views(promote@) =~= before.push((h.track_id, p@)));
            }
        }
        proof {
            let f = files_with(*h);
            if !other_home && h.track_file_path@.len() > 0 && !own_is_copy {
                assert(list + f =~= with_copy.push(h.track_file_path@));
            } else {
                assert(list + f =~= with_copy);
            }
        }
        i += 1;
    }
    DeleteCollectionPlan {
        collection_id,
        collection_name: match name {
            Some(s) => s.clone(),
            None => "(unknown)".to_owned(),
        },
        files_to_delete: inside,
        files_outside_music_dir: outside,
        orphaned_track_ids: orphaned,
        promote_paths: promote,
    }
}

fn copy_pairs(v: &Vec<(i64, String)>) -> (r: Vec<(i64, String)>)
    ensures
        r@ == v@,
{
    let mut out: Vec<(i64, String)> = Vec::new();
    let mut i: usize = 0;
    while i < v.len()
        invariant
            i <= v@.len(),
            out@ == v@.take(i as int),
        decreases v@.len() - i,
    {
        out.push((v[i].0, v[i].1.clone()));
        i += 1;
        assert(v@.take(i as int) =~= v@.take(i - 1).push(v@[i - 1]));
    }
    assert(v@.take(i as int) =~= v@);
    out
}

/// What carrying out the plan deletes. Tracks without another home always go,
/// so that a deleted collection leaves no loose tracks; files go, and other
/// copies take their place, only with `delete_files`.
pub fn collection_deletion_job(
    plan: &DeleteCollectionPlan,
    delete_files: bool,
    roots: &Vec<String>,
) -> (r: Job)
    ensures
        r.files@ == (if delete_files {
            plan.files_to_delete@
        } else {
            Seq::empty()
        }),
        r.promotions@ == (if delete_files {
            plan.promote_paths@
        } else {
            Seq::empty()
        }),
        r.track_ids@ == plan.orphaned_track_ids@,
        r.album_ids@.len() == 0,
        r.collection == Some((plan.collection_id, plan.collection_name)),
        r.roots@ == roots@,
{
    Job {
        files: if delete_files {
            copy_all(&plan.files_to_delete)
        } else {
            Vec::new()
        },
        promotions: if delete_files {
            copy_pairs(&plan.promote_paths)
        } else {
            Vec::new()
        },
        track_ids: plan.orphaned_track_ids.clone(),
        album_ids: Vec::new(),
        collection: Some((plan.collection_id, plan.collection_name.clone())),
        roots: copy_all(roots),
    }
}

/// A track that has another home is never deleted with the collection.
pub proof fn law_tracks_with_a_home_stay(homes: Seq<CollectionTrackHomes>, n: int, k: int)
    requires
        n <= homes.len(),
        0 <= k < homeless(homes, n).len(),
    ensures
        exists|i: int|
            0 <= i < n && (#[trigger] homes[i]).track_id == homeless(homes, n)[k] && !has_other_home(
                homes[i],
            ),
    decreases n,
{
    let before = homeless(homes, n - 1);
    if k < before.len() {
        law_tracks_with_a_home_stay(homes, n - 1, k);
        let i = choose|i: int|
            0 <= i < n - 1 && (#[trigger] homes[i]).track_id == before[k] && !has_other_home(
                homes[i],
            );
        assert(0 <= i < n);
        assert(homes[i].track_id == homeless(homes, n)[k]);
    } else {
        assert(homes[n - 1].track_id == homeless(homes, n)[k]);
    }
}


proof fn lemma_first_copy(
    copies: Seq<OtherCopy>,
    track_id: i64,
    on_disk: bool,
    i: int,
    k: int,
)
    requires
        0 <= i <= k < copies.len(),
        copies[k].track_id == track_id && (copies[k].exists || !on_disk),
        forall|j: int|
            i <= j < k ==> !((#[trigger] copies[j]).track_id == track_id && (copies[j].exists
                || !on_disk)),
    ensures
        first_copy(copies, track_id, on_disk, i) == Some(copies[k].path@),
    decreases k - i,
{
    if i < k {
        assert(!(copies[i].track_id == track_id && (copies[i].exists || !on_disk)));
        lemma_first_copy(copies, track_id, on_disk, i + 1, k);
    }
}

proof fn lemma_no_copy(copies: Seq<OtherCopy>, track_id: i64, on_disk: bool, i: int)
    requires
        0 <= i,
        forall|j: int|
            i <= j < copies.len() ==> !((#[trigger] copies[j]).track_id == track_id
                && (copies[j].exists || !on_disk)),
    ensures
        first_copy(copies, track_id, on_disk, i) is None,
    decreases copies.len() - i,
{
    if i < copies.len() {
        assert(!(copies[i].track_id == track_id && (copies[i].exists || !on_disk)));
        lemma_no_copy(copies, track_id, on_disk, i + 1);
    }
}

/// A track whose file goes with the collection lives on in the first of its
/// other copies that is on disk, or in the first of them where none is.
pub proof fn law_copies_on_disk_are_promoted_first(copies: Seq<OtherCopy>, track_id: i64, k: int)
    requires
        0 <= k < copies.len(),
        copies[k].track_id == track_id,
    ensures
        copies[k].exists && (forall|j: int|
            0 <= j < k ==> !((#[trigger] copies[j]).track_id == track_id && copies[j].exists))
            ==> other_copy(copies, track_id) == Some(copies[k].path@),
        (forall|j: int|
            0 <= j < copies.len() && (#[trigger] copies[j]).track_id == track_id
                ==> !copies[j].exists) && (forall|j: int|
            0 <= j < k ==> (#[trigger] copies[j]).track_id != track_id) ==> other_copy(
            copies,
            track_id,
        ) == Some(copies[k].path@),
{
    if copies[k].exists && (forall|j: int|
        0 <= j < k ==> !((#[trigger] copies[j]).track_id == track_id && copies[j].exists)) {
        lemma_first_copy(copies, track_id, true, 0, k);
    }
    if (forall|j: int|
        0 <= j < copies.len() && (#[trigger] copies[j]).track_id == track_id ==> !copies[j].exists)
        && (forall|j: int| 0 <= j < k ==> (#[trigger] copies[j]).track_id != track_id) {
        lemma_no_copy(copies, track_id, true, 0);
        lemma_first_copy(copies, track_id, false, 0, k);
    }
}

proof fn lemma_with_prefix(
    a: Seq<CollectionTrackHomes>,
    b: Seq<CollectionTrackHomes>,
    copies: Seq<OtherCopy>,
    n: int,
)
    requires
        n <= a.len(),
        n <= b.len(),
        forall|i: int| 0 <= i < n ==> a[i] == b[i],
    ensures
        files_with_all(a, n) == files_with_all(b, n),
        homeless(a, n) == homeless(b, n),
        promotions(a, copies, n) == promotions(b, copies, n),
    decreases n,
{
    if n > 0 {
        lemma_with_prefix(a, b, copies, n - 1);
    }
}

proof fn lemma_with_add(
    a: Seq<CollectionTrackHomes>,
    b: Seq<CollectionTrackHomes>,
    copies: Seq<OtherCopy>,
    n: int,
)
    requires
        0 <= n <= b.len(),
    ensures
        files_with_all(a + b, a.len() + n) == files_with_all(a, a.len() as int) + files_with_all(
            b,
            n,
        ),
        homeless(a + b, a.len() + n) == homeless(a, a.len() as int) + homeless(b, n),
        promotions(a + b, copies, a.len() + n) == promotions(a, copies, a.len() as int)
            + promotions(b, copies, n),
    decreases n,
{
    let f = files_with_all(a, a.len() as int);
    let h = homeless(a, a.len() as int);
    let p = promotions(a, copies, a.len() as int);
    if n == 0 {
        lemma_with_prefix(a, a + b, copies, a.len() as int);
        assert(f + Seq::<Seq<char>>::empty() =~= f);
        assert(h + Seq::<i64>::empty() =~= h);
        assert(p + Seq::<(i64, Seq<char>)>::empty() =~= p);
    } else {
        lemma_with_add(a, b, copies, n - 1);
        let t = b[n - 1];
        assert((a + b)[a.len() + n - 1] == t);
        assert(f + files_with_all(b, n - 1) + files_with(t) =~= f + (files_with_all(b, n - 1)
            + files_with(t)));
        assert((h + homeless(b, n - 1)).push(t.track_id) =~= h + homeless(b, n - 1).push(
            t.track_id,
        ));
        let q = promotions(b, copies, n - 1);
        if needs_promotion(t) && other_copy(copies, t.track_id) is Some {
            let x = (t.track_id, other_copy(copies, t.track_id)->0);
            assert((p + q).push(x) =~= p + q.push(x));
        }
    }
}

/// The tracks of a collection are gone through in order. One that is in an
/// album or another collection loses its copy alone and stays; one that is in
/// neither goes with its own file too. Where the lost copy was the file of a
/// track without album, another copy takes its place.
pub proof fn law_only_homeless_tracks_lose_their_file(
    a: Seq<CollectionTrackHomes>,
    b: Seq<CollectionTrackHomes>,
    h: CollectionTrackHomes,
    copies: Seq<OtherCopy>,
    at: Seq<char>,
)
    requires
        h.collection_file_path is Some,
        h.collection_file_path->0@ == at,
    ensures
        files_with_all(a + b, (a + b).len() as int) == files_with_all(a, a.len() as int)
            + files_with_all(b, b.len() as int),
        homeless(a + b, (a + b).len() as int) == homeless(a, a.len() as int) + homeless(
            b,
            b.len() as int,
        ),
        promotions(a + b, copies, (a + b).len() as int) == promotions(a, copies, a.len() as int)
            + promotions(b, copies, b.len() as int),
        h.has_album || h.other_collection_count > 0 ==> files_with_all(seq![h], 1) == seq![at]
            && homeless(seq![h], 1).len() == 0,
        !h.has_album && h.other_collection_count <= 0 ==> homeless(seq![h], 1) == seq![h.track_id]
            && promotions(seq![h], copies, 1).len() == 0 && files_with_all(seq![h], 1) == (
        if h.track_file_path@.len() > 0 && h.track_file_path@ != at {
            seq![at, h.track_file_path@]
        } else {
            seq![at]
        }),
        !h.has_album && h.other_collection_count > 0 && h.track_file_path@ == at && other_copy(
            copies,
            h.track_id,
        ) is Some ==> promotions(seq![h], copies, 1) == seq![
            (h.track_id, other_copy(copies, h.track_id)->0),
        ],
        h.has_album || h.track_file_path@ != at ==> promotions(seq![h], copies, 1).len() == 0,
{
    lemma_with_add(a, b, copies, b.len() as int);
    let one = seq![h];
    assert(files_with_all(one, 0) =~= Seq::<Seq<char>>::empty());
    assert(homeless(one, 0) =~= Seq::<i64>::empty());
    assert(promotions(one, copies, 0) =~= Seq::<(i64, Seq<char>)>::empty());
    assert(files_with_all(one, 1) =~= files_with(h));
    assert(seq![at].push(h.track_file_path@) =~= seq![at, h.track_file_path@]);
    assert(Seq::<i64>::empty().push(h.track_id) =~= seq![h.track_id]);
}

} // verus!
