//! Which paths a plan asks for.
//!
//! A plan is made from what is known of the disk, and asks for one path at a
//! time where that is not enough. All it ever asks for is fixed by the tracks
//! and the settings, so that asking comes to an end.
use vstd::prelude::*;

use crate::organizer::{
    answer, by_id, collection_home, copied_for, copy_step, copy_steps, cover_of, cover_steps,
    exists_on, first_variant, move_step, order_by_id, pair_views, place, plan_of, planned, primary_home,
    reserve_steps, reserved, slot_free, track_step, track_steps, variant, Probe, TrackTargets, Work,
};
use crate::rows::{OrganizeCollectionMembership, OrganizeTrackRow};
use crate::settings::LibrarySettings;
use crate::text::views;

verus! {

// ---------------------------------------------------------------------------
// Paths that are known beforehand

/// The places where the copies of a track belong, for the first `n` of the
/// collections `cs`.
pub open spec fn copy_homes(
    lib: LibrarySettings,
    t: OrganizeTrackRow,
    cs: Seq<OrganizeCollectionMembership>,
    n: int,
) -> Seq<Seq<char>>
    decreases n,
{
    if n <= 0 {
        Seq::empty()
    } else {
        copy_homes(lib, t, cs, n - 1).push(collection_home(lib, t, cs[n - 1]))
    }
}

/// The file of a track, and the places where it and its copies belong.
pub open spec fn track_paths(lib: LibrarySettings, t: OrganizeTrackRow) -> Seq<Seq<char>> {
    let cs = by_id(t.collections@);
    seq![t.file_path@, primary_home(lib, t)] + copy_homes(lib, t, cs, cs.len() as int)
}

/// Those paths for the first `n` tracks.
pub open spec fn paths_below(lib: LibrarySettings, ts: Seq<OrganizeTrackRow>, n: int) -> Seq<
    Seq<char>,
>
    decreases n,
{
    if n <= 0 { Seq::empty() } else { paths_below(lib, ts, n - 1) + track_paths(lib, ts[n - 1]) }
}

/// The paths of covers.
pub open spec fn cover_paths(covers: Seq<(i64, Seq<char>)>) -> Seq<Seq<char>> {
    covers.map_values(|c: (i64, Seq<char>)| c.1)
}

/// The paths that a plan is going to need: for each track its file and the
/// places where it and its copies belong, and the recorded covers. Probing
/// them beforehand leaves little to ask for.
pub fn foreseen_paths(
    lib: &LibrarySettings,
    tracks: &Vec<OrganizeTrackRow>,
    covers: &Vec<(i64, String)>,
) -> (r: Vec<String>)
    ensures
        views(r@) == paths_below(*lib, tracks@, tracks@.len() as int) + cover_paths(
            pair_views(covers@),
        ),
{
    let mut out: Vec<String> = Vec::new();
    let mut i: usize = 0;
    assert(views(out@) =~= Seq::<Seq<char>>::empty());
    while i < tracks.len()
        invariant
            i <= tracks@.len(),
            views(out@) == paths_below(*lib, tracks@, i as int),
        decreases tracks@.len() - i,
    {
        let ghost before = views(out@);
        let mut more = paths_of_track(lib, &tracks[i]);
        let ghost found = views(more@);
        out.append(&mut more);
        i += 1;
        assert(views(out@) =~= before + found);
    }
    let ghost start = views(out@);
    let ghost cs = cover_paths(pair_views(covers@));
    let mut j: usize = 0;
    assert(start + cs.take(0) =~= start);
    while j < covers.len()
        invariant
            j <= covers@.len(),
            cs == cover_paths(pair_views(covers@)),
            views(out@) == start + cs.take(j as int),
        decreases covers@.len() - j,
    {
        let ghost before = views(out@);
        out.push(covers[j].1.clone());
        j += 1;
        assert(views(out@) =~= before.push(covers@[j - 1].1@));
        assert(cs.take(j as int) =~= cs.take(j - 1).push(covers@[j - 1].1@));
        assert(start + cs.take(j as int) =~= (start + cs.take(j - 1)).push(covers@[j - 1].1@));
    }
    assert(cs.take(j as int) =~= cs);
    out
}

/// The file of a track, and the places where it and its copies belong.
fn paths_of_track(lib: &LibrarySettings, t: &OrganizeTrackRow) -> (r: Vec<String>)
    ensures
        views(r@) == track_paths(*lib, *t),
{
    let targets = TrackTargets::new(t);
    let ghost cs = by_id(t.collections@);
    let mut out: Vec<String> = Vec::new();
    out.push(t.file_path.clone());
    out.push(targets.primary_target(lib, Ghost(*t)));
    let ghost first = seq![t.file_path@, primary_home(*lib, *t)];
    assert(views(out@) =~= first);
    let memberships = order_by_id(&t.collections);
    let mut i: usize = 0;
    assert(first + copy_homes(*lib, *t, cs, 0) =~= first);
    while i < memberships.len()
        invariant
            i <= memberships@.len(),
            memberships@ == cs,
            targets.of(*t),
            views(out@) == first + copy_homes(*lib, *t, cs, i as int),
        decreases memberships@.len() - i,
    {
        let ghost before = views(out@);
        let p = targets.collection_target(&memberships[i], lib, Ghost(*t));
        out.push(p);
        i += 1;
        assert(views(out@) =~= before.push(p@));
        assert(first + copy_homes(*lib, *t, cs, i as int) =~= (first + copy_homes(
            *lib,
            *t,
            cs,
            i - 1,
        )).push(p@));
    }
    out
}

// ---------------------------------------------------------------------------
// All that can be asked for

/// A target and its numbered variants.
pub open spec fn around(target: Seq<char>) -> Seq<Seq<char>> {
    Seq::new(999, |i: int| if i == 0 { target } else { variant(target, i + 1) })
}

/// The places around which the copies of a track go, for the first `n` of the
/// collections `cs`.
pub open spec fn copy_questions(
    lib: LibrarySettings,
    t: OrganizeTrackRow,
    cs: Seq<OrganizeCollectionMembership>,
    n: int,
) -> Seq<Seq<char>>
    decreases n,
{
    if n <= 0 {
        Seq::empty()
    } else {
        copy_questions(lib, t, cs, n - 1) + around(collection_home(lib, t, cs[n - 1]))
    }
}

/// All that can be asked for on account of one track.
pub open spec fn track_questions(lib: LibrarySettings, t: OrganizeTrackRow) -> Seq<Seq<char>> {
    let cs = copied_for(t);
    seq![t.file_path@] + around(primary_home(lib, t)) + copy_questions(lib, t, cs, cs.len() as int)
}

/// All that can be asked for on account of the first `n` tracks.
pub open spec fn questions_below(lib: LibrarySettings, ts: Seq<OrganizeTrackRow>, n: int) -> Seq<
    Seq<char>,
>
    decreases n,
{
    if n <= 0 {
        Seq::empty()
    } else {
        questions_below(lib, ts, n - 1) + track_questions(lib, ts[n - 1])
    }
}

/// All that a plan can ask for, whatever is on disk.
pub open spec fn questions(
    lib: LibrarySettings,
    ts: Seq<OrganizeTrackRow>,
    covers: Seq<(i64, Seq<char>)>,
) -> Seq<Seq<char>> {
    questions_below(lib, ts, ts.len() as int) + cover_paths(covers)
}

/// How many of the questions are not answered.
pub open spec fn unanswered(disk: Seq<Probe>, qs: Seq<Seq<char>>) -> nat
    decreases qs.len(),
{
    if qs.len() == 0 {
        0
    } else {
        unanswered(disk, qs.drop_last()) + if answer(disk, qs.last()) is None { 1nat } else { 0nat }
    }
}

proof fn lemma_in_sum(a: Seq<Seq<char>>, b: Seq<Seq<char>>, q: Seq<char>)
    ensures
        a.contains(q) || b.contains(q) ==> (a + b).contains(q),
{
    if a.contains(q) {
        let i = a.index_of(q);
        assert((a + b)[i] == q);
    } else if b.contains(q) {
        let i = b.index_of(q);
        assert((a + b)[a.len() + i] == q);
    }
}

proof fn lemma_around(target: Seq<char>)
    ensures
        around(target).contains(target),
        forall|i: int| 2 <= i < 1000 ==> around(target).contains(#[trigger] variant(target, i)),
{
    assert(around(target)[0] == target);
    assert forall|i: int| 2 <= i < 1000 implies around(target).contains(
        #[trigger] variant(target, i),
    ) by {
        assert(around(target)[i - 1] == variant(target, i));
    }
}

proof fn lemma_first_variant_asks(
    disk: Seq<Probe>,
    orphans: Seq<Seq<char>>,
    used: Seq<Seq<char>>,
    from: Seq<char>,
    target: Seq<char>,
    i: int,
)
    requires
        2 <= i,
    ensures
        match first_variant(disk, orphans, used, from, target, i) {
            Ok(p) => around(target).contains(p),
            Err(q) => answer(disk, q) is None && (q == from || around(target).contains(q)),
        },
    decreases 1000 - i,
{
    lemma_around(target);
    if i < 1000 {
        assert(around(target).contains(variant(target, i)));
        lemma_first_variant_asks(disk, orphans, used, from, target, i + 1);
    }
}

proof fn lemma_place_asks(
    disk: Seq<Probe>,
    orphans: Seq<Seq<char>>,
    used: Seq<Seq<char>>,
    from: Seq<char>,
    target: Seq<char>,
)
    ensures
        match place(disk, orphans, used, from, target) {
            Ok(p) => around(target).contains(p),
            Err(q) => answer(disk, q) is None && (q == from || around(target).contains(q)),
        },
{
    reveal(place);
    lemma_around(target);
    lemma_first_variant_asks(disk, orphans, used, from, target, 2);
}

proof fn lemma_copies_ask(
    disk: Seq<Probe>,
    lib: LibrarySettings,
    orphans: Seq<Seq<char>>,
    t: OrganizeTrackRow,
    source: Seq<char>,
    cs: Seq<OrganizeCollectionMembership>,
    i: int,
    w: Work,
)
    requires
        0 <= i,
    ensures
        match copy_steps(disk, lib, orphans, t, source, cs, i, w) {
            Ok(_) => true,
            Err(q) => answer(disk, q) is None && (q == source || copy_questions(
                lib,
                t,
                cs,
                cs.len() as int,
            ).contains(q)),
        },
    decreases cs.len() - i,
{
    if i < cs.len() {
        let raw = collection_home(lib, t, cs[i]);
        match copy_step(disk, lib, orphans, t, source, cs[i], w) {
            Ok(next) => {
                lemma_copies_ask(disk, lib, orphans, t, source, cs, i + 1, next);
            },
            Err(q) => {
                reveal(copy_step);
                lemma_around(raw);
                lemma_place_asks(disk, orphans, w.used, source, raw);
                if around(raw).contains(q) {
                    lemma_copy_questions(lib, t, cs, i, cs.len() as int, q);
                }
            },
        }
    }
}

proof fn lemma_copy_questions(
    lib: LibrarySettings,
    t: OrganizeTrackRow,
    cs: Seq<OrganizeCollectionMembership>,
    i: int,
    n: int,
    q: Seq<char>,
)
    requires
        0 <= i < n <= cs.len(),
        around(collection_home(lib, t, cs[i])).contains(q),
    ensures
        copy_questions(lib, t, cs, n).contains(q),
    decreases n,
{
    if i < n - 1 {
        lemma_copy_questions(lib, t, cs, i, n - 1, q);
    }
    lemma_in_sum(
        copy_questions(lib, t, cs, n - 1),
        around(collection_home(lib, t, cs[n - 1])),
        q,
    );
}

proof fn lemma_track_asks(
    disk: Seq<Probe>,
    lib: LibrarySettings,
    orphans: Seq<Seq<char>>,
    t: OrganizeTrackRow,
    w: Work,
)
    ensures
        match track_step(disk, lib, orphans, t, w) {
            Ok(_) => true,
            Err(q) => answer(disk, q) is None && track_questions(lib, t).contains(q),
        },
{
    reveal(track_step);
    reveal(move_step);
    let goal = primary_home(lib, t);
    let cs = copied_for(t);
    let a = seq![t.file_path@];
    let b = around(goal);
    let c = copy_questions(lib, t, cs, cs.len() as int);
    assert(a[0] == t.file_path@);
    assert forall|q: Seq<char>| q == t.file_path@ || b.contains(q) || c.contains(q) implies #[trigger]
        track_questions(lib, t).contains(q) by {
        lemma_in_sum(a, b, q);
        lemma_in_sum(a + b, c, q);
    }
    lemma_around(goal);
    lemma_place_asks(disk, orphans, w.used, t.file_path@, goal);
    if let Ok((next, at)) = move_step(disk, lib, orphans, t, w) {
        assert(b.contains(at));
        let recorded = crate::organizer::album_step(t, at, next);
        lemma_copies_ask(disk, lib, orphans, t, at, cs, 0, recorded);
    }
}

proof fn lemma_questions_below(
    lib: LibrarySettings,
    ts: Seq<OrganizeTrackRow>,
    i: int,
    n: int,
    q: Seq<char>,
)
    requires
        0 <= i < n <= ts.len(),
        track_questions(lib, ts[i]).contains(q),
    ensures
        questions_below(lib, ts, n).contains(q),
    decreases n,
{
    if i < n - 1 {
        lemma_questions_below(lib, ts, i, n - 1, q);
    }
    lemma_in_sum(questions_below(lib, ts, n - 1), track_questions(lib, ts[n - 1]), q);
}

proof fn lemma_tracks_ask(
    disk: Seq<Probe>,
    lib: LibrarySettings,
    orphans: Seq<Seq<char>>,
    ts: Seq<OrganizeTrackRow>,
    i: int,
    w: Work,
)
    requires
        0 <= i,
    ensures
        match track_steps(disk, lib, orphans, ts, i, w) {
            Ok(_) => true,
            Err(q) => answer(disk, q) is None && questions_below(
                lib,
                ts,
                ts.len() as int,
            ).contains(q),
        },
    decreases ts.len() - i,
{
    if i < ts.len() {
        lemma_track_asks(disk, lib, orphans, ts[i], w);
        match track_step(disk, lib, orphans, ts[i], w) {
            Ok(next) => {
                lemma_tracks_ask(disk, lib, orphans, ts, i + 1, next);
            },
            Err(q) => {
                lemma_questions_below(lib, ts, i, ts.len() as int, q);
            },
        }
    }
}

proof fn lemma_reserve_asks(
    disk: Seq<Probe>,
    lib: LibrarySettings,
    ts: Seq<OrganizeTrackRow>,
    i: int,
    used: Seq<Seq<char>>,
)
    requires
        0 <= i,
    ensures
        match reserve_steps(disk, lib, ts, i, used) {
            Ok(_) => true,
            Err(q) => answer(disk, q) is None && questions_below(
                lib,
                ts,
                ts.len() as int,
            ).contains(q),
        },
    decreases ts.len() - i,
{
    if i < ts.len() {
        let t = ts[i];
        match exists_on(disk, t.file_path@) {
            Ok(there) => {
                let next = if there && crate::paths::comps(t.file_path@) == crate::paths::comps(
                    primary_home(lib, t),
                ) {
                    used.push(primary_home(lib, t))
                } else {
                    used
                };
                lemma_reserve_asks(disk, lib, ts, i + 1, next);
            },
            Err(q) => {
                let cs = copied_for(t);
                let a = seq![t.file_path@];
                let b = around(primary_home(lib, t));
                assert(a[0] == q);
                lemma_in_sum(a, b, q);
                lemma_in_sum(a + b, copy_questions(lib, t, cs, cs.len() as int), q);
                lemma_questions_below(lib, ts, i, ts.len() as int, q);
            },
        }
    }
}

proof fn lemma_cover_is_listed(covers: Seq<(i64, Seq<char>)>, id: i64)
    ensures
        cover_of(covers, id) is Some ==> cover_paths(covers).contains(cover_of(covers, id)->0),
    decreases covers.len(),
{
    if covers.len() > 0 {
        if covers[0].0 == id {
            assert(cover_paths(covers)[0] == covers[0].1);
        } else {
            lemma_cover_is_listed(covers.skip(1), id);
            if cover_of(covers.skip(1), id) is Some {
                let i = cover_paths(covers.skip(1)).index_of(cover_of(covers, id)->0);
                assert(cover_paths(covers)[i + 1] == cover_paths(covers.skip(1))[i]);
            }
        }
    }
}

proof fn lemma_covers_ask(
    disk: Seq<Probe>,
    covers: Seq<(i64, Seq<char>)>,
    albums: Seq<(i64, Seq<char>)>,
    i: int,
)
    requires
        0 <= i,
    ensures
        match cover_steps(disk, covers, albums, i) {
            Ok(_) => true,
            Err(q) => answer(disk, q) is None && cover_paths(covers).contains(q),
        },
    decreases albums.len() - i,
{
    if i < albums.len() {
        lemma_cover_is_listed(covers, albums[i].0);
        lemma_covers_ask(disk, covers, albums, i + 1);
    }
}

/// What a plan asks for is one of its questions, and was not answered.
pub proof fn law_only_open_questions_are_asked(
    disk: Seq<Probe>,
    lib: LibrarySettings,
    orphans: Seq<Seq<char>>,
    ts: Seq<OrganizeTrackRow>,
    all: Seq<Seq<char>>,
    copies: Seq<(i64, i64, String)>,
    covers: Seq<(i64, Seq<char>)>,
)
    ensures
        match plan_of(disk, lib, orphans, ts, all, copies, covers) {
            Ok(_) => true,
            Err(q) => answer(disk, q) is None && questions(lib, ts, covers).contains(q),
        },
{
    let a = questions_below(lib, ts, ts.len() as int);
    let b = cover_paths(covers);
    assert forall|q: Seq<char>| a.contains(q) || b.contains(q) implies #[trigger] questions(
        lib,
        ts,
        covers,
    ).contains(q) by {
        lemma_in_sum(a, b, q);
    }
    let start = crate::organizer::claimed_by_others(all, ts, all.len() as int)
        + crate::organizer::claimed_by_copies(copies, ts, copies.len() as int);
    lemma_reserve_asks(disk, lib, ts, 0, start);
    if let Ok(used) = reserved(disk, lib, ts, all, copies) {
        let first = crate::organizer::empty_work(used);
        lemma_tracks_ask(disk, lib, orphans, ts, 0, first);
        if let Ok(w) = planned(disk, lib, orphans, ts, all, copies) {
            lemma_covers_ask(disk, covers, w.albums, 0);
        }
    }
}

proof fn lemma_answer_push(disk: Seq<Probe>, more: Probe, p: Seq<char>)
    ensures
        answer(disk.push(more), p) == (if answer(disk, p) is Some {
            answer(disk, p)
        } else if more.path@ == p {
            Some(more)
        } else {
            None
        }),
    decreases disk.len(),
{
    if disk.len() == 0 {
        assert(disk.push(more).skip(1) =~= Seq::<Probe>::empty());
        assert(answer(disk.push(more).skip(1), p) is None);
    } else {
        lemma_answer_push(disk.skip(1), more, p);
        assert(disk.push(more)[0] == disk[0]);
        assert(disk.push(more).skip(1) =~= disk.skip(1).push(more));
    }
}

proof fn lemma_unanswered_push(disk: Seq<Probe>, more: Probe, qs: Seq<Seq<char>>)
    ensures
        unanswered(disk.push(more), qs) <= unanswered(disk, qs),
        qs.contains(more.path@) && answer(disk, more.path@) is None ==> unanswered(
            disk.push(more),
            qs,
        ) < unanswered(disk, qs),
    decreases qs.len(),
{
    if qs.len() > 0 {
        lemma_unanswered_push(disk, more, qs.drop_last());
        lemma_answer_push(disk, more, qs.last());
        if qs.contains(more.path@) && qs.last() != more.path@ {
            let i = qs.index_of(more.path@);
            assert(qs.drop_last()[i] == more.path@);
        }
    }
}

proof fn lemma_open_question(disk: Seq<Probe>, qs: Seq<Seq<char>>, q: Seq<char>)
    requires
        qs.contains(q),
        answer(disk, q) is None,
    ensures
        unanswered(disk, qs) > 0,
    decreases qs.len(),
{
    if qs.last() != q {
        let i = qs.index_of(q);
        assert(qs.drop_last()[i] == q);
        lemma_open_question(disk, qs.drop_last(), q);
    }
}

/// Planning comes to an end. The answer to what was asked leaves fewer open
/// questions, that question is not asked again, and where no question is
/// open there is a plan.
pub proof fn law_planning_comes_to_an_end(
    disk: Seq<Probe>,
    lib: LibrarySettings,
    orphans: Seq<Seq<char>>,
    ts: Seq<OrganizeTrackRow>,
    all: Seq<Seq<char>>,
    copies: Seq<(i64, i64, String)>,
    covers: Seq<(i64, Seq<char>)>,
    reply: Probe,
)
    ensures
        ({
            let qs = questions(lib, ts, covers);
            let want = plan_of(disk, lib, orphans, ts, all, copies, covers);
            let next = plan_of(disk.push(reply), lib, orphans, ts, all, copies, covers);
            &&& unanswered(disk, qs) == 0 ==> want is Ok
            &&& want is Err && reply.path@ == want->Err_0 ==> unanswered(disk.push(reply), qs)
                < unanswered(disk, qs)
            &&& next is Err ==> next->Err_0 != reply.path@
        }),
{
    let qs = questions(lib, ts, covers);
    law_only_open_questions_are_asked(disk, lib, orphans, ts, all, copies, covers);
    law_only_open_questions_are_asked(disk.push(reply), lib, orphans, ts, all, copies, covers);
    lemma_unanswered_push(disk, reply, qs);
    lemma_answer_push(disk, reply, reply.path@);
    if let Err(q) = plan_of(disk, lib, orphans, ts, all, copies, covers) {
        lemma_open_question(disk, qs, q);
    }
}

// ---------------------------------------------------------------------------
// More answers

proof fn lemma_slot_settled(
    disk: Seq<Probe>,
    more: Probe,
    orphans: Seq<Seq<char>>,
    used: Seq<Seq<char>>,
    p: Seq<char>,
    from: Seq<char>,
)
    requires
        slot_free(disk, orphans, used, p, from) is Ok,
    ensures
        slot_free(disk.push(more), orphans, used, p, from) == slot_free(
            disk,
            orphans,
            used,
            p,
            from,
        ),
{
    lemma_answer_push(disk, more, p);
    lemma_answer_push(disk, more, from);
}

proof fn lemma_first_variant_settled(
    disk: Seq<Probe>,
    more: Probe,
    orphans: Seq<Seq<char>>,
    used: Seq<Seq<char>>,
    from: Seq<char>,
    target: Seq<char>,
    i: int,
)
    requires
        first_variant(disk, orphans, used, from, target, i) is Ok,
    ensures
        first_variant(disk.push(more), orphans, used, from, target, i) == first_variant(
            disk,
            orphans,
            used,
            from,
            target,
            i,
        ),
    decreases 1000 - i,
{
    if i < 1000 {
        lemma_slot_settled(disk, more, orphans, used, variant(target, i), from);
        if slot_free(disk, orphans, used, variant(target, i), from) == Ok::<bool, Seq<char>>(false) {
            lemma_first_variant_settled(disk, more, orphans, used, from, target, i + 1);
        }
    }
}

proof fn lemma_place_settled(
    disk: Seq<Probe>,
    more: Probe,
    orphans: Seq<Seq<char>>,
    used: Seq<Seq<char>>,
    from: Seq<char>,
    target: Seq<char>,
)
    requires
        place(disk, orphans, used, from, target) is Ok,
    ensures
        place(disk.push(more), orphans, used, from, target) == place(
            disk,
            orphans,
            used,
            from,
            target,
        ),
{
    reveal(place);
    lemma_slot_settled(disk, more, orphans, used, target, from);
    if slot_free(disk, orphans, used, target, from) == Ok::<bool, Seq<char>>(false) {
        lemma_first_variant_settled(disk, more, orphans, used, from, target, 2);
    }
}

proof fn lemma_copies_settled(
    disk: Seq<Probe>,
    more: Probe,
    lib: LibrarySettings,
    orphans: Seq<Seq<char>>,
    t: OrganizeTrackRow,
    source: Seq<char>,
    cs: Seq<OrganizeCollectionMembership>,
    i: int,
    w: Work,
)
    requires
        0 <= i,
        copy_steps(disk, lib, orphans, t, source, cs, i, w) is Ok,
    ensures
        copy_steps(disk.push(more), lib, orphans, t, source, cs, i, w) == copy_steps(
            disk,
            lib,
            orphans,
            t,
            source,
            cs,
            i,
            w,
        ),
    decreases cs.len() - i,
{
    if i < cs.len() {
        let raw = collection_home(lib, t, cs[i]);
        let next = copy_step(disk, lib, orphans, t, source, cs[i], w)->Ok_0;
        lemma_copies_settled(disk, more, lib, orphans, t, source, cs, i + 1, next);
        assert(copy_step(disk.push(more), lib, orphans, t, source, cs[i], w) == copy_step(
            disk,
            lib,
            orphans,
            t,
            source,
            cs[i],
            w,
        )) by {
            reveal(copy_step);
            lemma_answer_push(disk, more, raw);
            if exists_on(disk, raw) == Ok::<bool, Seq<char>>(false) {
                lemma_place_settled(disk, more, orphans, w.used, source, raw);
            }
        }
    }
}

proof fn lemma_track_settled(
    disk: Seq<Probe>,
    more: Probe,
    lib: LibrarySettings,
    orphans: Seq<Seq<char>>,
    t: OrganizeTrackRow,
    w: Work,
)
    requires
        track_step(disk, lib, orphans, t, w) is Ok,
    ensures
        track_step(disk.push(more), lib, orphans, t, w) == track_step(disk, lib, orphans, t, w),
{
    reveal(track_step);
    reveal(move_step);
    lemma_answer_push(disk, more, t.file_path@);
    if exists_on(disk, t.file_path@) == Ok::<bool, Seq<char>>(true) {
        let goal = primary_home(lib, t);
        if crate::paths::comps(t.file_path@) != crate::paths::comps(goal) {
            lemma_place_settled(disk, more, orphans, w.used, t.file_path@, goal);
        }
        let (next, at) = move_step(disk, lib, orphans, t, w)->Ok_0;
        let recorded = crate::organizer::album_step(t, at, next);
        lemma_copies_settled(disk, more, lib, orphans, t, at, copied_for(t), 0, recorded);
    }
}

proof fn lemma_tracks_settled(
    disk: Seq<Probe>,
    more: Probe,
    lib: LibrarySettings,
    orphans: Seq<Seq<char>>,
    ts: Seq<OrganizeTrackRow>,
    i: int,
    w: Work,
)
    requires
        0 <= i,
        track_steps(disk, lib, orphans, ts, i, w) is Ok,
    ensures
        track_steps(disk.push(more), lib, orphans, ts, i, w) == track_steps(
            disk,
            lib,
            orphans,
            ts,
            i,
            w,
        ),
    decreases ts.len() - i,
{
    if i < ts.len() {
        lemma_track_settled(disk, more, lib, orphans, ts[i], w);
        let next = track_step(disk, lib, orphans, ts[i], w)->Ok_0;
        lemma_tracks_settled(disk, more, lib, orphans, ts, i + 1, next);
    }
}

proof fn lemma_reserve_settled(
    disk: Seq<Probe>,
    more: Probe,
    lib: LibrarySettings,
    ts: Seq<OrganizeTrackRow>,
    i: int,
    used: Seq<Seq<char>>,
)
    requires
        0 <= i,
        reserve_steps(disk, lib, ts, i, used) is Ok,
    ensures
        reserve_steps(disk.push(more), lib, ts, i, used) == reserve_steps(disk, lib, ts, i, used),
    decreases ts.len() - i,
{
    if i < ts.len() {
        let t = ts[i];
        lemma_answer_push(disk, more, t.file_path@);
        let next = if exists_on(disk, t.file_path@)->Ok_0 && crate::paths::comps(t.file_path@)
            == crate::paths::comps(primary_home(lib, t)) {
            used.push(primary_home(lib, t))
        } else {
            used
        };
        lemma_reserve_settled(disk, more, lib, ts, i + 1, next);
    }
}

proof fn lemma_covers_settled(
    disk: Seq<Probe>,
    more: Probe,
    covers: Seq<(i64, Seq<char>)>,
    albums: Seq<(i64, Seq<char>)>,
    i: int,
)
    requires
        0 <= i,
        cover_steps(disk, covers, albums, i) is Ok,
    ensures
        cover_steps(disk.push(more), covers, albums, i) == cover_steps(disk, covers, albums, i),
    decreases albums.len() - i,
{
    if i < albums.len() {
        if let Some(src) = cover_of(covers, albums[i].0) {
            lemma_answer_push(disk, more, src);
        }
        lemma_covers_settled(disk, more, covers, albums, i + 1);
    }
}

/// A plan that needs no further answer stays as it is when more is known of
/// the disk.
pub proof fn law_more_answers_change_no_plan(
    disk: Seq<Probe>,
    more: Probe,
    lib: LibrarySettings,
    orphans: Seq<Seq<char>>,
    ts: Seq<OrganizeTrackRow>,
    all: Seq<Seq<char>>,
    copies: Seq<(i64, i64, String)>,
    covers: Seq<(i64, Seq<char>)>,
)
    requires
        plan_of(disk, lib, orphans, ts, all, copies, covers) is Ok,
    ensures
        plan_of(disk.push(more), lib, orphans, ts, all, copies, covers) == plan_of(
            disk,
            lib,
            orphans,
            ts,
            all,
            copies,
            covers,
        ),
{
    let start = crate::organizer::claimed_by_others(all, ts, all.len() as int)
        + crate::organizer::claimed_by_copies(copies, ts, copies.len() as int);
    lemma_reserve_settled(disk, more, lib, ts, 0, start);
    let first = crate::organizer::empty_work(reserved(disk, lib, ts, all, copies)->Ok_0);
    lemma_tracks_settled(disk, more, lib, orphans, ts, 0, first);
    let w = planned(disk, lib, orphans, ts, all, copies)->Ok_0;
    lemma_covers_settled(disk, more, covers, w.albums, 0);
}

} // verus!
