//! Carrying out an organize plan.
//!
//! The run is a sequence of steps. At each one it names an action; whoever
//! performs it answers with an event, and the run moves on. Every file
//! operation is paired with the database updates that belong to it, and an
//! error on one track is recorded without stopping the rest.
use crate::organizer::OrganizePlan;
use crate::paths::{parent, same_path};
use crate::settings::OrganizeOperation;
use crate::sweep::Sweep;
use crate::text::{holds, lowercased, opt_view, to_lower, views};
use vstd::prelude::*;

verus! {

/// What an organize run came to.
#[derive(Debug)]
pub struct OrganizeResult {
    pub moved: u32,
    pub copied: u32,
    pub covers_moved: u32,
    /// What went wrong: a path, and the reason.
    pub errors: Vec<(String, String)>,
    pub dirs_cleaned: u32,
    /// How many rows of missing tracks were removed.
    pub orphans_cleaned: u32,
    /// How many pending orphans were fully handled.
    pub file_orphans_removed: u32,
    /// Why rows of missing tracks were kept, if they were.
    pub prune_blocked_reason: Option<String>,
}

/// Where a run stands. The number is a position in the list at hand.
#[derive(Debug, Clone, Copy, PartialEq, Eq, Structural)]
pub enum Stage {
    /// Learns the resolved spelling of a pending orphan.
    Exempt(usize),
    /// Looks at the destination of a move.
    MoveCheck(usize),
    Moving(usize),
    MoveRow(usize),
    MoveCollection(usize),
    /// Learns the resolved spelling of a destination.
    MoveReal(usize),
    Backfill(usize),
    CopyCheck(usize),
    Copying(usize),
    CopyRow(usize),
    CopyReal(usize),
    Covering(usize),
    CoverRow(usize),
    CoverReal(usize),
    /// Looks again whether a source is missing.
    PruneCheck(usize),
    PruneRow(usize),
    /// Learns the resolved spelling of an orphan.
    OrphanCheck(usize),
    Unlinking(usize),
    /// Clears the row of an orphan that was unlinked, or (`true`) replaced.
    OrphanRow(usize, bool),
    Finished,
}

/// What is to be done next.
#[derive(Debug)]
pub enum Action {
    /// Look at a path, and resolve it and, if given, a second one.
    Check { path: String, second: Option<String> },
    /// Move a file, or copy it, after making the directories it goes to.
    Transfer { from: String, to: String, copy: bool },
    SetTrackPath { track_id: i64, path: String },
    SetCollectionPath { collection_id: i64, track_id: i64, path: String },
    SetAlbumCover { album_id: i64, path: String },
    DeleteTrack { track_id: i64 },
    Unlink { path: String },
    DeleteOrphan { id: i64 },
    /// Nothing is left but to sweep up.
    Finish,
}

/// What came of an action.
#[derive(Debug)]
pub enum Event {
    Checked { exists: bool, resolved: Option<String>, second_resolved: Option<String> },
    Done,
    /// The file to unlink was not there.
    NotFound,
    Failed(String),
}

/// The orphans from `i` on, then the end.
pub open spec fn enter_orphans(plan: OrganizePlan, i: int) -> Stage {
    if 0 <= i < plan.file_orphans@.len() { Stage::OrphanCheck(i as usize) } else { Stage::Finished }
}

/// The missing sources from `i` on, unless they are to be kept.
pub open spec fn enter_prune(plan: OrganizePlan, i: int) -> Stage {
    if plan.prune_blocked_reason is None && 0 <= i < plan.missing_sources@.len() {
        Stage::PruneCheck(i as usize)
    } else {
        enter_orphans(plan, 0)
    }
}

/// The covers from `i` on.
pub open spec fn enter_covers(plan: OrganizePlan, i: int) -> Stage {
    if 0 <= i < plan.cover_moves@.len() { Stage::Covering(i as usize) } else { enter_prune(plan, 0) }
}

/// The copies from `i` on.
pub open spec fn enter_copies(plan: OrganizePlan, i: int) -> Stage {
    if 0 <= i < plan.copies@.len() { Stage::CopyCheck(i as usize) } else { enter_covers(plan, 0) }
}

/// The backfills from `i` on.
pub open spec fn enter_backfills(plan: OrganizePlan, i: int) -> Stage {
    if 0 <= i < plan.copy_backfills@.len() {
        Stage::Backfill(i as usize)
    } else {
        enter_copies(plan, 0)
    }
}

/// The moves from `i` on.
pub open spec fn enter_moves(plan: OrganizePlan, i: int) -> Stage {
    if 0 <= i < plan.moves@.len() { Stage::MoveCheck(i as usize) } else { enter_backfills(plan, 0) }
}

/// The spellings of orphans from `i` on.
pub open spec fn enter_exempt(plan: OrganizePlan, i: int) -> Stage {
    if 0 <= i < plan.file_orphans@.len() { Stage::Exempt(i as usize) } else { enter_moves(plan, 0) }
}

/// Whether a stage points into its list.
pub open spec fn in_range(plan: OrganizePlan, s: Stage) -> bool {
    match s {
        Stage::Exempt(i) | Stage::OrphanCheck(i) | Stage::Unlinking(i) | Stage::OrphanRow(i, _) => i
            < plan.file_orphans@.len(),
        Stage::MoveCheck(i) | Stage::Moving(i) | Stage::MoveRow(i) | Stage::MoveCollection(i)
        | Stage::MoveReal(i) => i < plan.moves@.len(),
        Stage::Backfill(i) => i < plan.copy_backfills@.len(),
        Stage::CopyCheck(i) | Stage::Copying(i) | Stage::CopyRow(i) | Stage::CopyReal(i) => i
            < plan.copies@.len(),
        Stage::Covering(i) | Stage::CoverRow(i) | Stage::CoverReal(i) => i
            < plan.cover_moves@.len(),
        Stage::PruneCheck(i) | Stage::PruneRow(i) => i < plan.missing_sources@.len()
            && plan.prune_blocked_reason is None,
        Stage::Finished => true,
    }
}

/// Whether a stage points into its list and a collection update has its
/// collection.
pub open spec fn stage_ok(plan: OrganizePlan, s: Stage) -> bool {
    in_range(plan, s) && (s matches Stage::MoveCollection(i)
        ==> plan.moves@[i as int].also_collection is Some)
}

/// Whether `a` is what a stage asks for.
pub open spec fn asks(plan: OrganizePlan, op: OrganizeOperation, s: Stage, a: Action) -> bool {
    match (s, a) {
        (Stage::Exempt(i), Action::Check { path, second }) => path@
            == plan.file_orphans@[i as int].path@ && second is None,
        (Stage::MoveCheck(i), Action::Check { path, second }) => path@ == plan.moves@[i as int].to@
            && opt_view(second) == Some(plan.moves@[i as int].from@),
        (Stage::Moving(i), Action::Transfer { from, to, copy }) => from@
            == plan.moves@[i as int].from@ && to@ == plan.moves@[i as int].to@ && copy == (op
            == OrganizeOperation::Copy),
        (Stage::MoveRow(i), Action::SetTrackPath { track_id, path }) => track_id
            == plan.moves@[i as int].track_id && path@ == plan.moves@[i as int].to@,
        (Stage::MoveCollection(i), Action::SetCollectionPath { collection_id, track_id, path }) => (
        plan.moves@[i as int].also_collection matches Some(c) ==> collection_id == c.0) && track_id
            == plan.moves@[i as int].track_id && path@ == plan.moves@[i as int].to@,
        (Stage::MoveReal(i), Action::Check { path, second }) => path@ == plan.moves@[i as int].to@
            && second is None,
        (Stage::Backfill(i), Action::SetCollectionPath { collection_id, track_id, path }) =>
        collection_id == plan.copy_backfills@[i as int].collection_id && track_id
            == plan.copy_backfills@[i as int].track_id && path@
            == plan.copy_backfills@[i as int].path@,
        (Stage::CopyCheck(i), Action::Check { path, second }) => path@ == plan.copies@[i as int].to@
            && opt_view(second) == Some(plan.copies@[i as int].from@),
        (Stage::Copying(i), Action::Transfer { from, to, copy }) => from@
            == plan.copies@[i as int].from@ && to@ == plan.copies@[i as int].to@ && copy,
        (Stage::CopyRow(i), Action::SetCollectionPath { collection_id, track_id, path }) =>
        collection_id == plan.copies@[i as int].collection_id && track_id
            == plan.copies@[i as int].track_id && path@ == plan.copies@[i as int].to@,
        (Stage::CopyReal(i), Action::Check { path, second }) => path@ == plan.copies@[i as int].to@
            && second is None,
        (Stage::Covering(i), Action::Transfer { from, to, copy }) => from@
            == plan.cover_moves@[i as int].from@ && to@ == plan.cover_moves@[i as int].to@ && copy
            == (op == OrganizeOperation::Copy),
        (Stage::CoverRow(i), Action::SetAlbumCover { album_id, path }) => album_id
            == plan.cover_moves@[i as int].album_id && path@ == plan.cover_moves@[i as int].to@,
        (Stage::CoverReal(i), Action::Check { path, second }) => path@
            == plan.cover_moves@[i as int].to@ && second is None,
        (Stage::PruneCheck(i), Action::Check { path, second }) => path@
            == plan.missing_sources@[i as int].1@ && second is None,
        (Stage::PruneRow(i), Action::DeleteTrack { track_id }) => track_id
            == plan.missing_sources@[i as int].0,
        (Stage::OrphanCheck(i), Action::Check { path, second }) => path@
            == plan.file_orphans@[i as int].path@ && second is None,
        (Stage::Unlinking(i), Action::Unlink { path }) => path@ == plan.file_orphans@[i as int].path@,
        (Stage::OrphanRow(i, _), Action::DeleteOrphan { id }) => id
            == plan.file_orphans@[i as int].id,
        (Stage::Finished, Action::Finish) => true,
        _ => false,
    }
}

/// A run under way, as mathematical values.
#[verifier::ext_equal]
pub struct Progress {
    pub stage: Stage,
    pub moved: u32,
    pub copied: u32,
    pub covers_moved: u32,
    pub orphans_cleaned: u32,
    pub file_orphans_removed: u32,
    pub errors: Seq<(Seq<char>, Seq<char>)>,
    /// The spellings of every path that a file was put at in this run.
    pub occupied: Seq<Seq<char>>,
    /// The spellings of the pending orphans, which may be overwritten.
    pub exempt: Seq<Seq<char>>,
    /// The directories that files have left.
    pub emptied: Seq<Seq<char>>,
    /// Whether the disk does not tell cases apart.
    pub fold: bool,
}

/// One more; a count at the end of its range stays there.
pub open spec fn one_more(n: u32) -> u32 {
    if n < u32::MAX { (n + 1) as u32 } else { n }
}

/// `list` with a path, and in lower case too where the disk does not tell
/// cases apart.
pub open spec fn with_cases(list: Seq<Seq<char>>, p: Seq<char>, fold: bool) -> Seq<Seq<char>> {
    if fold { list.push(lowercased(p)).push(p) } else { list.push(p) }
}

/// `list` with a path, and its resolved spelling where there is one.
pub open spec fn with_spellings(
    list: Seq<Seq<char>>,
    p: Seq<char>,
    resolved: Option<Seq<char>>,
    fold: bool,
) -> Seq<Seq<char>> {
    match resolved {
        Some(r) => with_cases(with_cases(list, p, fold), r, fold),
        None => with_cases(list, p, fold),
    }
}

/// Whether a list has a path, in lower case too where the disk does not tell
/// cases apart.
pub open spec fn has_case(list: Seq<Seq<char>>, p: Seq<char>, fold: bool) -> bool {
    list.contains(p) || (fold && list.contains(lowercased(p)))
}

/// Whether a list has a path under either spelling.
pub open spec fn has_spelling(
    list: Seq<Seq<char>>,
    p: Seq<char>,
    resolved: Option<Seq<char>>,
    fold: bool,
) -> bool {
    has_case(list, p, fold) || (resolved is Some && has_case(list, resolved->0, fold))
}

/// Whether two resolved spellings are one path.
pub open spec fn one_place(a: Option<Seq<char>>, b: Option<Seq<char>>) -> bool {
    a is Some && b is Some && crate::paths::comps(a->0) == crate::paths::comps(b->0)
}

/// The run with one more error, at the stage `next`.
pub open spec fn failed(p: Progress, path: Seq<char>, why: Seq<char>, next: Stage) -> Progress {
    Progress { errors: p.errors.push((path, why)), stage: next, ..p }
}

/// The directories left, with the one a file was in.
pub open spec fn left_behind(list: Seq<Seq<char>>, file: Seq<char>, yes: bool) -> Seq<Seq<char>> {
    match crate::paths::parent_of(file) {
        Some(d) => if yes { list.push(d) } else { list },
        None => list,
    }
}

/// An event as mathematical values.
pub enum Answer {
    Checked { exists: bool, resolved: Option<Seq<char>>, second_resolved: Option<Seq<char>> },
    Done,
    NotFound,
    Failed(Seq<char>),
}

impl View for Event {
    type V = Answer;

    open spec fn view(&self) -> Answer {
        match *self {
            Event::Checked { exists, resolved, second_resolved } => Answer::Checked {
                exists,
                resolved: opt_view(resolved),
                second_resolved: opt_view(second_resolved),
            },
            Event::Done => Answer::Done,
            Event::NotFound => Answer::NotFound,
            Event::Failed(e) => Answer::Failed(e@),
        }
    }
}

/// What an event makes of a run at a move.
pub open spec fn after_move(
    plan: OrganizePlan,
    op: OrganizeOperation,
    p: Progress,
    e: Answer,
) -> Progress {
    match (p.stage, e) {
        (Stage::MoveCheck(i), Answer::Checked { exists, resolved, second_resolved }) => {
            let m = plan.moves@[i as int];
            if exists && !has_spelling(p.exempt, m.to@, resolved, p.fold) && !one_place(second_resolved, resolved) {
                failed(
                    p,
                    m.from@,
                    "destination "@ + m.to@ + " already exists — skipped to avoid overwriting it"@,
                    enter_moves(plan, i + 1),
                )
            } else {
                Progress { stage: Stage::Moving(i), ..p }
            }
        },
        (Stage::Moving(i), Answer::Done) => Progress { stage: Stage::MoveRow(i), ..p },
        (Stage::Moving(i), Answer::Failed(why)) => failed(
            p,
            plan.moves@[i as int].from@,
            why,
            enter_moves(plan, i + 1),
        ),
        (Stage::MoveRow(i), Answer::Done) => Progress {
            stage: if plan.moves@[i as int].also_collection is Some {
                Stage::MoveCollection(i)
            } else {
                Stage::MoveReal(i)
            },
            ..p
        },
        (Stage::MoveRow(i), Answer::Failed(why)) => failed(
            p,
            plan.moves@[i as int].from@,
            "file moved to "@ + plan.moves@[i as int].to@ + " but DB update failed: "@ + why,
            enter_moves(plan, i + 1),
        ),
        (Stage::MoveCollection(i), Answer::Done) => Progress { stage: Stage::MoveReal(i), ..p },
        (Stage::MoveCollection(i), Answer::Failed(why)) => failed(
            p,
            plan.moves@[i as int].from@,
            "file moved and tracks row updated, but collection_tracks update failed: "@ + why,
            enter_moves(plan, i + 1),
        ),
        (Stage::MoveReal(i), Answer::Checked { exists, resolved, second_resolved }) => Progress {
            stage: enter_moves(plan, i + 1),
            moved: one_more(p.moved),
            occupied: with_spellings(p.occupied, plan.moves@[i as int].to@, resolved, p.fold),
            emptied: left_behind(
                p.emptied,
                plan.moves@[i as int].from@,
                op == OrganizeOperation::Move,
            ),
            ..p
        },
        _ => p,
    }
}

/// What an event makes of a run at a copy or a backfill.
pub open spec fn after_copy(plan: OrganizePlan, p: Progress, e: Answer) -> Progress {
    match (p.stage, e) {
        (Stage::Backfill(i), Answer::Done) => Progress { stage: enter_backfills(plan, i + 1), ..p },
        (Stage::Backfill(i), Answer::Failed(why)) => failed(
            p,
            plan.copy_backfills@[i as int].path@,
            "collection copy exists but DB backfill failed: "@ + why,
            enter_backfills(plan, i + 1),
        ),
        (Stage::CopyCheck(i), Answer::Checked { exists, resolved, second_resolved }) => {
            let c = plan.copies@[i as int];
            if exists && !one_place(second_resolved, resolved) {
                failed(
                    p,
                    c.from@,
                    "copy destination "@ + c.to@ + " already exists — skipped"@,
                    enter_copies(plan, i + 1),
                )
            } else {
                Progress { stage: Stage::Copying(i), ..p }
            }
        },
        (Stage::Copying(i), Answer::Done) => Progress { stage: Stage::CopyRow(i), ..p },
        (Stage::Copying(i), Answer::Failed(why)) => failed(
            p,
            plan.copies@[i as int].from@,
            why,
            enter_copies(plan, i + 1),
        ),
        (Stage::CopyRow(i), Answer::Done) => Progress { stage: Stage::CopyReal(i), ..p },
        (Stage::CopyRow(i), Answer::Failed(why)) => failed(
            p,
            plan.copies@[i as int].from@,
            "file copied to "@ + plan.copies@[i as int].to@ + " but DB update failed: "@ + why,
            enter_copies(plan, i + 1),
        ),
        (Stage::CopyReal(i), Answer::Checked { exists, resolved, second_resolved }) => Progress {
            stage: enter_copies(plan, i + 1),
            copied: one_more(p.copied),
            occupied: with_spellings(p.occupied, plan.copies@[i as int].to@, resolved, p.fold),
            ..p
        },
        _ => p,
    }
}

/// What an event makes of a run at a cover.
pub open spec fn after_cover(
    plan: OrganizePlan,
    op: OrganizeOperation,
    p: Progress,
    e: Answer,
) -> Progress {
    match (p.stage, e) {
        (Stage::Covering(i), Answer::Done) => Progress { stage: Stage::CoverRow(i), ..p },
        (Stage::Covering(i), Answer::Failed(why)) => failed(
            p,
            plan.cover_moves@[i as int].from@,
            why,
            enter_covers(plan, i + 1),
        ),
        (Stage::CoverRow(i), Answer::Done) => Progress { stage: Stage::CoverReal(i), ..p },
        (Stage::CoverRow(i), Answer::Failed(why)) => failed(
            p,
            plan.cover_moves@[i as int].from@,
            "cover moved to "@ + plan.cover_moves@[i as int].to@ + " but DB update failed: "@ + why,
            enter_covers(plan, i + 1),
        ),
        (Stage::CoverReal(i), Answer::Checked { exists, resolved, second_resolved }) => Progress {
            stage: enter_covers(plan, i + 1),
            covers_moved: one_more(p.covers_moved),
            occupied: with_spellings(p.occupied, plan.cover_moves@[i as int].to@, resolved, p.fold),
            emptied: left_behind(
                p.emptied,
                plan.cover_moves@[i as int].from@,
                op == OrganizeOperation::Move,
            ),
            ..p
        },
        _ => p,
    }
}

/// What an event makes of a run at a missing source or an orphan.
pub open spec fn after_prune(plan: OrganizePlan, p: Progress, e: Answer) -> Progress {
    match (p.stage, e) {
        (Stage::Exempt(i), Answer::Checked { exists, resolved, second_resolved }) => Progress {
            stage: enter_exempt(plan, i + 1),
            exempt: with_spellings(p.exempt, plan.file_orphans@[i as int].path@, resolved, p.fold),
            ..p
        },
        (Stage::PruneCheck(i), Answer::Checked { exists, resolved, second_resolved }) => Progress {
            stage: if exists { enter_prune(plan, i + 1) } else { Stage::PruneRow(i) },
            ..p
        },
        (Stage::PruneRow(i), Answer::Done) => Progress {
            stage: enter_prune(plan, i + 1),
            orphans_cleaned: one_more(p.orphans_cleaned),
            ..p
        },
        (Stage::PruneRow(i), Answer::Failed(why)) => failed(
            p,
            plan.missing_sources@[i as int].1@,
            "failed to prune DB row for missing '"@ + plan.missing_sources@[i as int].2@ + "': "@
                + why,
            enter_prune(plan, i + 1),
        ),
        (Stage::OrphanCheck(i), Answer::Checked { exists, resolved, second_resolved }) => Progress {
            stage: if has_spelling(
                p.occupied,
                plan.file_orphans@[i as int].path@,
                resolved,
                p.fold,
            ) {
                Stage::OrphanRow(i, true)
            } else {
                Stage::Unlinking(i)
            },
            ..p
        },
        (Stage::Unlinking(i), Answer::Done) => Progress { stage: Stage::OrphanRow(i, false), ..p },
        (Stage::Unlinking(i), Answer::NotFound) => Progress {
            stage: Stage::OrphanRow(i, false),
            ..p
        },
        (Stage::Unlinking(i), Answer::Failed(why)) => failed(
            p,
            plan.file_orphans@[i as int].path@,
            "orphan unlink failed: "@ + why,
            enter_orphans(plan, i + 1),
        ),
        (Stage::OrphanRow(i, replaced), Answer::Done) => Progress {
            stage: enter_orphans(plan, i + 1),
            file_orphans_removed: one_more(p.file_orphans_removed),
            emptied: left_behind(p.emptied, plan.file_orphans@[i as int].path@, !replaced),
            ..p
        },
        (Stage::OrphanRow(i, replaced), Answer::Failed(why)) => failed(
            p,
            plan.file_orphans@[i as int].path@,
            "orphan row delete failed: "@ + why,
            enter_orphans(plan, i + 1),
        ),
        _ => p,
    }
}

/// What an event makes of a run. An event that does not answer the stage
/// changes nothing.
pub open spec fn after(
    plan: OrganizePlan,
    op: OrganizeOperation,
    p: Progress,
    e: Answer,
) -> Progress {
    match p.stage {
        Stage::MoveCheck(_)
        | Stage::Moving(_)
        | Stage::MoveRow(_)
        | Stage::MoveCollection(_)
        | Stage::MoveReal(_) => after_move(plan, op, p, e),
        Stage::Backfill(_)
        | Stage::CopyCheck(_)
        | Stage::Copying(_)
        | Stage::CopyRow(_)
        | Stage::CopyReal(_) => after_copy(plan, p, e),
        Stage::Covering(_) | Stage::CoverRow(_) | Stage::CoverReal(_) => after_cover(plan, op, p, e),
        _ => after_prune(plan, p, e),
    }
}

// ---------------------------------------------------------------------------
// The run

/// Path and reason of each error.
pub open spec fn error_views(v: Seq<(String, String)>) -> Seq<(Seq<char>, Seq<char>)> {
    v.map_values(|e: (String, String)| (e.0@, e.1@))
}

/// An organize run under way.
#[derive(Debug)]
pub struct Apply {
    stage: Stage,
    moved: u32,
    copied: u32,
    covers_moved: u32,
    orphans_cleaned: u32,
    file_orphans_removed: u32,
    errors: Vec<(String, String)>,
    occupied: Vec<String>,
    exempt: Vec<String>,
    emptied: Vec<String>,
    fold: bool,
}

impl View for Apply {
    type V = Progress;

    closed spec fn view(&self) -> Progress {
        Progress {
            stage: self.stage,
            moved: self.moved,
            copied: self.copied,
            covers_moved: self.covers_moved,
            orphans_cleaned: self.orphans_cleaned,
            file_orphans_removed: self.file_orphans_removed,
            errors: error_views(self.errors@),
            occupied: views(self.occupied@),
            exempt: views(self.exempt@),
            emptied: views(self.emptied@),
            fold: self.fold,
        }
    }
}

/// A run before its first step.
pub open spec fn fresh(plan: OrganizePlan, fold: bool) -> Progress {
    Progress {
        stage: enter_exempt(plan, 0),
        moved: 0,
        copied: 0,
        covers_moved: 0,
        orphans_cleaned: 0,
        file_orphans_removed: 0,
        errors: Seq::empty(),
        occupied: Seq::empty(),
        exempt: Seq::empty(),
        emptied: Seq::empty(),
        fold,
    }
}

fn to_orphans(plan: &OrganizePlan, i: usize) -> (r: Stage)
    ensures
        r == enter_orphans(*plan, i as int),
{
    if i < plan.file_orphans.len() {
        Stage::OrphanCheck(i)
    } else {
        Stage::Finished
    }
}

fn to_prune(plan: &OrganizePlan, i: usize) -> (r: Stage)
    ensures
        r == enter_prune(*plan, i as int),
{
    if plan.prune_blocked_reason.is_none() && i < plan.missing_sources.len() {
        Stage::PruneCheck(i)
    } else {
        to_orphans(plan, 0)
    }
}

fn to_covers(plan: &OrganizePlan, i: usize) -> (r: Stage)
    ensures
        r == enter_covers(*plan, i as int),
{
    if i < plan.cover_moves.len() {
        Stage::Covering(i)
    } else {
        to_prune(plan, 0)
    }
}

fn to_copies(plan: &OrganizePlan, i: usize) -> (r: Stage)
    ensures
        r == enter_copies(*plan, i as int),
{
    if i < plan.copies.len() {
        Stage::CopyCheck(i)
    } else {
        to_covers(plan, 0)
    }
}

fn to_backfills(plan: &OrganizePlan, i: usize) -> (r: Stage)
    ensures
        r == enter_backfills(*plan, i as int),
{
    if i < plan.copy_backfills.len() {
        Stage::Backfill(i)
    } else {
        to_copies(plan, 0)
    }
}

fn to_moves(plan: &OrganizePlan, i: usize) -> (r: Stage)
    ensures
        r == enter_moves(*plan, i as int),
{
    if i < plan.moves.len() {
        Stage::MoveCheck(i)
    } else {
        to_backfills(plan, 0)
    }
}

fn to_exempt(plan: &OrganizePlan, i: usize) -> (r: Stage)
    ensures
        r == enter_exempt(*plan, i as int),
{
    if i < plan.file_orphans.len() {
        Stage::Exempt(i)
    } else {
        to_moves(plan, 0)
    }
}

/// The position after `i`.
fn past(i: usize, len: usize) -> (r: usize)
    requires
        i < len,
    ensures
        r == i + 1,
{
    i + 1
}

/// Pieces of text in a row.
fn said(a: &str, b: &str, c: &str, d: &str) -> (r: String)
    ensures
        r@ == a@ + b@ + c@ + d@,
{
    let mut out = a.to_owned();
    out.append(b);
    out.append(c);
    out.append(d);
    out
}

/// Whether a list has a path under either spelling.
fn spelled(list: &Vec<String>, p: &str, resolved: &Option<String>, fold: bool) -> (r: bool)
    ensures
        r == has_spelling(views(list@), p@, opt_view(*resolved), fold),
{
    cased(list, p, fold) || match resolved {
        Some(q) => cased(list, q.as_str(), fold),
        None => false,
    }
}

fn cased(list: &Vec<String>, p: &str, fold: bool) -> (r: bool)
    ensures
        r == has_case(views(list@), p@, fold),
{
    holds(list, p) || (fold && holds(list, to_lower(p).as_str()))
}

fn add_cases(list: &mut Vec<String>, p: &str, fold: bool)
    ensures
        views(final(list)@) == with_cases(views(old(list)@), p@, fold),
{
    if fold {
        let lower = to_lower(p);
        list.push(lower);
        assert(views(list@) =~= views(old(list)@).push(lower@));
    }
    let ghost before = views(list@);
    list.push(p.to_owned());
    assert(views(list@) =~= before.push(p@));
}

/// Records that a destination now holds a live file.
fn mark_occupied(list: &mut Vec<String>, p: &str, resolved: &Option<String>, fold: bool)
    ensures
        views(final(list)@) == with_spellings(views(old(list)@), p@, opt_view(*resolved), fold),
{
    add_cases(list, p, fold);
    if let Some(q) = resolved {
        add_cases(list, q.as_str(), fold);
    }
}

fn one_resolved(a: &Option<String>, b: &Option<String>) -> (r: bool)
    ensures
        r == one_place(opt_view(*a), opt_view(*b)),
{
    match (a, b) {
        (Some(x), Some(y)) => same_path(x.as_str(), y.as_str()),
        _ => false,
    }
}

fn leave(list: &mut Vec<String>, file: &str, yes: bool)
    ensures
        views(final(list)@) == left_behind(views(old(list)@), file@, yes),
{
    if let Some(d) = parent(file) {
        if yes {
            list.push(d);
            assert(views(list@) =~= views(old(list)@).push(d@));
        }
    }
}

fn count_one(n: u32) -> (r: u32)
    ensures
        r == one_more(n),
{
    if n < u32::MAX {
        n + 1
    } else {
        n
    }
}

impl Apply {
    /// Begins a run. `fold` says that the disk does not tell cases apart.
    pub fn new(plan: &OrganizePlan, fold: bool) -> (r: Self)
        ensures
            r@ == fresh(*plan, fold),
            stage_ok(*plan, r@.stage),
    {
        let r = Apply {
            stage: to_exempt(plan, 0),
            moved: 0,
            copied: 0,
            covers_moved: 0,
            orphans_cleaned: 0,
            file_orphans_removed: 0,
            errors: Vec::new(),
            occupied: Vec::new(),
            exempt: Vec::new(),
            emptied: Vec::new(),
            fold,
        };
        assert(r@ =~= fresh(*plan, fold));
        r
    }

    /// What is to be done next.
    pub fn action(&self, plan: &OrganizePlan, op: OrganizeOperation) -> (r: Action)
        requires
            stage_ok(*plan, self@.stage),
        ensures
            asks(*plan, op, self@.stage, r),
    {
        match self.stage {
            Stage::Exempt(i) => Action::Check {
                path: plan.file_orphans[i].path.clone(),
                second: None,
            },
            Stage::MoveCheck(i) => Action::Check {
                path: plan.moves[i].to.clone(),
                second: Some(plan.moves[i].from.clone()),
            },
            Stage::Moving(i) => Action::Transfer {
                from: plan.moves[i].from.clone(),
                to: plan.moves[i].to.clone(),
                copy: op == OrganizeOperation::Copy,
            },
            Stage::MoveRow(i) => Action::SetTrackPath {
                track_id: plan.moves[i].track_id,
                path: plan.moves[i].to.clone(),
            },
            Stage::MoveCollection(i) => Action::SetCollectionPath {
                collection_id: match &plan.moves[i].also_collection {
                    Some(c) => c.0,
                    None => 0,
                },
                track_id: plan.moves[i].track_id,
                path: plan.moves[i].to.clone(),
            },
            Stage::MoveReal(i) => Action::Check { path: plan.moves[i].to.clone(), second: None },
            Stage::Backfill(i) => Action::SetCollectionPath {
                collection_id: plan.copy_backfills[i].collection_id,
                track_id: plan.copy_backfills[i].track_id,
                path: plan.copy_backfills[i].path.clone(),
            },
            Stage::CopyCheck(i) => Action::Check {
                path: plan.copies[i].to.clone(),
                second: Some(plan.copies[i].from.clone()),
            },
            Stage::Copying(i) => Action::Transfer {
                from: plan.copies[i].from.clone(),
                to: plan.copies[i].to.clone(),
                copy: true,
            },
            Stage::CopyRow(i) => Action::SetCollectionPath {
                collection_id: plan.copies[i].collection_id,
                track_id: plan.copies[i].track_id,
                path: plan.copies[i].to.clone(),
            },
            Stage::CopyReal(i) => Action::Check { path: plan.copies[i].to.clone(), second: None },
            Stage::Covering(i) => Action::Transfer {
                from: plan.cover_moves[i].from.clone(),
                to: plan.cover_moves[i].to.clone(),
                copy: op == OrganizeOperation::Copy,
            },
            Stage::CoverRow(i) => Action::SetAlbumCover {
                album_id: plan.cover_moves[i].album_id,
                path: plan.cover_moves[i].to.clone(),
            },
            Stage::CoverReal(i) => Action::Check {
                path: plan.cover_moves[i].to.clone(),
                second: None,
            },
            Stage::PruneCheck(i) => Action::Check {
                path: plan.missing_sources[i].1.clone(),
                second: None,
            },
            Stage::PruneRow(i) => Action::DeleteTrack { track_id: plan.missing_sources[i].0 },
            Stage::OrphanCheck(i) => Action::Check {
                path: plan.file_orphans[i].path.clone(),
                second: None,
            },
            Stage::Unlinking(i) => Action::Unlink { path: plan.file_orphans[i].path.clone() },
            Stage::OrphanRow(i, _) => Action::DeleteOrphan { id: plan.file_orphans[i].id },
            Stage::Finished => Action::Finish,
        }
    }

    fn fail(&mut self, path: &str, why: String, next: Stage)
        ensures
            final(self)@ == failed(old(self)@, path@, why@, next),
    {
        self.errors.push((path.to_owned(), why));
        self.stage = next;
        assert(error_views(self.errors@) =~= error_views(old(self).errors@).push((path@, why@)));
        assert(self@ =~= failed(old(self)@, path@, why@, next));
    }

    fn on_move(&mut self, plan: &OrganizePlan, op: OrganizeOperation, e: &Event)
        requires
            stage_ok(*plan, old(self)@.stage),
        ensures
            final(self)@ == after_move(*plan, op, old(self)@, e@),
    {
        match (self.stage, e) {
            (Stage::MoveCheck(i), Event::Checked { exists, resolved, second_resolved }) => {
                let m = &plan.moves[i];
                if *exists && !spelled(&self.exempt, m.to.as_str(), resolved, self.fold) && !one_resolved(
                    second_resolved,
                    resolved,
                ) {
                    let why = said(
                        "destination ",
                        m.to.as_str(),
                        " already exists — skipped to avoid overwriting it",
                        "",
                    );
                    proof {
                        reveal_strlit("");
                        assert(why@ =~= "destination "@ + m.to@
                            + " already exists — skipped to avoid overwriting it"@);
                    }
                    self.fail(m.from.as_str(), why, to_moves(plan, past(i, plan.moves.len())));
                } else {
                    self.stage = Stage::Moving(i);
                }
            },
            (Stage::Moving(i), Event::Done) => {
                self.stage = Stage::MoveRow(i);
            },
            (Stage::Moving(i), Event::Failed(why)) => {
                self.fail(plan.moves[i].from.as_str(), why.clone(), to_moves(plan, past(i, plan.moves.len())));
            },
            (Stage::MoveRow(i), Event::Done) => {
                self.stage = if plan.moves[i].also_collection.is_some() {
                    Stage::MoveCollection(i)
                } else {
                    Stage::MoveReal(i)
                };
            },
            (Stage::MoveRow(i), Event::Failed(why)) => {
                let text = said(
                    "file moved to ",
                    plan.moves[i].to.as_str(),
                    " but DB update failed: ",
                    why.as_str(),
                );
                self.fail(plan.moves[i].from.as_str(), text, to_moves(plan, past(i, plan.moves.len())));
            },
            (Stage::MoveCollection(i), Event::Done) => {
                self.stage = Stage::MoveReal(i);
            },
            (Stage::MoveCollection(i), Event::Failed(why)) => {
                let mut text =
                    "file moved and tracks row updated, but collection_tracks update failed: ".to_owned();
                text.append(why.as_str());
                self.fail(plan.moves[i].from.as_str(), text, to_moves(plan, past(i, plan.moves.len())));
            },
            (Stage::MoveReal(i), Event::Checked { exists, resolved, second_resolved }) => {
                self.moved = count_one(self.moved);
                mark_occupied(&mut self.occupied, plan.moves[i].to.as_str(), resolved, self.fold);
                leave(
                    &mut self.emptied,
                    plan.moves[i].from.as_str(),
                    op == OrganizeOperation::Move,
                );
                self.stage = to_moves(plan, past(i, plan.moves.len()));
            },
            _ => {},
        }
    }

    fn on_copy(&mut self, plan: &OrganizePlan, e: &Event)
        requires
            stage_ok(*plan, old(self)@.stage),
        ensures
            final(self)@ == after_copy(*plan, old(self)@, e@),
    {
        match (self.stage, e) {
            (Stage::Backfill(i), Event::Done) => {
                self.stage = to_backfills(plan, past(i, plan.copy_backfills.len()));
            },
            (Stage::Backfill(i), Event::Failed(why)) => {
                let mut text = "collection copy exists but DB backfill failed: ".to_owned();
                text.append(why.as_str());
                self.fail(plan.copy_backfills[i].path.as_str(), text, to_backfills(plan, past(i, plan.copy_backfills.len())));
            },
            (Stage::CopyCheck(i), Event::Checked { exists, resolved, second_resolved }) => {
                let c = &plan.copies[i];
                if *exists && !one_resolved(second_resolved, resolved) {
                    let why = said(
                        "copy destination ",
                        c.to.as_str(),
                        " already exists — skipped",
                        "",
                    );
                    proof {
                        reveal_strlit("");
                        assert(why@ =~= "copy destination "@ + c.to@ + " already exists — skipped"@);
                    }
                    self.fail(c.from.as_str(), why, to_copies(plan, past(i, plan.copies.len())));
                } else {
                    self.stage = Stage::Copying(i);
                }
            },
            (Stage::Copying(i), Event::Done) => {
                self.stage = Stage::CopyRow(i);
            },
            (Stage::Copying(i), Event::Failed(why)) => {
                self.fail(plan.copies[i].from.as_str(), why.clone(), to_copies(plan, past(i, plan.copies.len())));
            },
            (Stage::CopyRow(i), Event::Done) => {
                self.stage = Stage::CopyReal(i);
            },
            (Stage::CopyRow(i), Event::Failed(why)) => {
                let text = said(
                    "file copied to ",
                    plan.copies[i].to.as_str(),
                    " but DB update failed: ",
                    why.as_str(),
                );
                self.fail(plan.copies[i].from.as_str(), text, to_copies(plan, past(i, plan.copies.len())));
            },
            (Stage::CopyReal(i), Event::Checked { exists, resolved, second_resolved }) => {
                self.copied = count_one(self.copied);
                mark_occupied(&mut self.occupied, plan.copies[i].to.as_str(), resolved, self.fold);
                self.stage = to_copies(plan, past(i, plan.copies.len()));
            },
            _ => {},
        }
    }

    fn on_cover(&mut self, plan: &OrganizePlan, op: OrganizeOperation, e: &Event)
        requires
            stage_ok(*plan, old(self)@.stage),
        ensures
            final(self)@ == after_cover(*plan, op, old(self)@, e@),
    {
        match (self.stage, e) {
            (Stage::Covering(i), Event::Done) => {
                self.stage = Stage::CoverRow(i);
            },
            (Stage::Covering(i), Event::Failed(why)) => {
                self.fail(plan.cover_moves[i].from.as_str(), why.clone(), to_covers(plan, past(i, plan.cover_moves.len())));
            },
            (Stage::CoverRow(i), Event::Done) => {
                self.stage = Stage::CoverReal(i);
            },
            (Stage::CoverRow(i), Event::Failed(why)) => {
                let text = said(
                    "cover moved to ",
                    plan.cover_moves[i].to.as_str(),
                    " but DB update failed: ",
                    why.as_str(),
                );
                self.fail(plan.cover_moves[i].from.as_str(), text, to_covers(plan, past(i, plan.cover_moves.len())));
            },
            (Stage::CoverReal(i), Event::Checked { exists, resolved, second_resolved }) => {
                self.covers_moved = count_one(self.covers_moved);
                mark_occupied(&mut self.occupied, plan.cover_moves[i].to.as_str(), resolved, self.fold);
                leave(
                    &mut self.emptied,
                    plan.cover_moves[i].from.as_str(),
                    op == OrganizeOperation::Move,
                );
                self.stage = to_covers(plan, past(i, plan.cover_moves.len()));
            },
            _ => {},
        }
    }

    fn on_prune(&mut self, plan: &OrganizePlan, e: &Event)
        requires
            stage_ok(*plan, old(self)@.stage),
        ensures
            final(self)@ == after_prune(*plan, old(self)@, e@),
    {
        match (self.stage, e) {
            (Stage::Exempt(i), Event::Checked { exists, resolved, second_resolved }) => {
                mark_occupied(&mut self.exempt, plan.file_orphans[i].path.as_str(), resolved, self.fold);
                self.stage = to_exempt(plan, past(i, plan.file_orphans.len()));
            },
            (Stage::PruneCheck(i), Event::Checked { exists, resolved, second_resolved }) => {
                self.stage = if *exists {
                    to_prune(plan, past(i, plan.missing_sources.len()))
                } else {
                    Stage::PruneRow(i)
                };
            },
            (Stage::PruneRow(i), Event::Done) => {
                self.orphans_cleaned = count_one(self.orphans_cleaned);
                self.stage = to_prune(plan, past(i, plan.missing_sources.len()));
            },
            (Stage::PruneRow(i), Event::Failed(why)) => {
                let text = said(
                    "failed to prune DB row for missing '",
                    plan.missing_sources[i].2.as_str(),
                    "': ",
                    why.as_str(),
                );
                self.fail(plan.missing_sources[i].1.as_str(), text, to_prune(plan, past(i, plan.missing_sources.len())));
            },
            (Stage::OrphanCheck(i), Event::Checked { exists, resolved, second_resolved }) => {
                self.stage = if spelled(
                    &self.occupied,
                    plan.file_orphans[i].path.as_str(),
                    resolved,
                    self.fold,
                ) {
                    Stage::OrphanRow(i, true)
                } else {
                    Stage::Unlinking(i)
                };
            },
            (Stage::Unlinking(i), Event::Done) => {
                self.stage = Stage::OrphanRow(i, false);
            },
            (Stage::Unlinking(i), Event::NotFound) => {
                self.stage = Stage::OrphanRow(i, false);
            },
            (Stage::Unlinking(i), Event::Failed(why)) => {
                let mut text = "orphan unlink failed: ".to_owned();
                text.append(why.as_str());
                self.fail(plan.file_orphans[i].path.as_str(), text, to_orphans(plan, past(i, plan.file_orphans.len())));
            },
            (Stage::OrphanRow(i, replaced), Event::Done) => {
                self.file_orphans_removed = count_one(self.file_orphans_removed);
                leave(&mut self.emptied, plan.file_orphans[i].path.as_str(), !replaced);
                self.stage = to_orphans(plan, past(i, plan.file_orphans.len()));
            },
            (Stage::OrphanRow(i, replaced), Event::Failed(why)) => {
                let mut text = "orphan row delete failed: ".to_owned();
                text.append(why.as_str());
                self.fail(plan.file_orphans[i].path.as_str(), text, to_orphans(plan, past(i, plan.file_orphans.len())));
            },
            _ => {},
        }
    }

    /// Takes in what came of the action.
    pub fn step(&mut self, plan: &OrganizePlan, op: OrganizeOperation, e: &Event)
        requires
            stage_ok(*plan, old(self)@.stage),
        ensures
            final(self)@ == after(*plan, op, old(self)@, e@),
            stage_ok(*plan, final(self)@.stage),
    {
        match self.stage {
            Stage::MoveCheck(_)
            | Stage::Moving(_)
            | Stage::MoveRow(_)
            | Stage::MoveCollection(_)
            | Stage::MoveReal(_) => self.on_move(plan, op, e),
            Stage::Backfill(_)
            | Stage::CopyCheck(_)
            | Stage::Copying(_)
            | Stage::CopyRow(_)
            | Stage::CopyReal(_) => self.on_copy(plan, e),
            Stage::Covering(_)
            | Stage::CoverRow(_)
            | Stage::CoverReal(_) => self.on_cover(plan, op, e),
            _ => self.on_prune(plan, e),
        }
    }

    /// Begins to sweep up the directories that files have left.
    pub fn sweep(&self, cleanup_roots: &Vec<String>) -> (r: Sweep)
        ensures
            r.wf(),
            r.roots() == views(cleanup_roots@),
            r.count() == 0,
            (r.at(), r.left()) == crate::sweep::settle(
                views(cleanup_roots@),
                None,
                crate::sweep::deepest_first(self@.emptied),
            ),
    {
        Sweep::start(&self.emptied, cleanup_roots)
    }

    /// Ends a run, with the number of directories that were swept up.
    pub fn finish(self, plan: &OrganizePlan, dirs_cleaned: u32) -> (r: OrganizeResult)
        ensures
            r.moved == self@.moved,
            r.copied == self@.copied,
            r.covers_moved == self@.covers_moved,
            error_views(r.errors@) == self@.errors,
            r.dirs_cleaned == dirs_cleaned,
            r.orphans_cleaned == self@.orphans_cleaned,
            r.file_orphans_removed == self@.file_orphans_removed,
            r.prune_blocked_reason == plan.prune_blocked_reason,
    {
        OrganizeResult {
            moved: self.moved,
            copied: self.copied,
            covers_moved: self.covers_moved,
            errors: self.errors,
            dirs_cleaned,
            orphans_cleaned: self.orphans_cleaned,
            file_orphans_removed: self.file_orphans_removed,
            prune_blocked_reason: crate::rows::copy_text(&plan.prune_blocked_reason),
        }
    }
}

// ---------------------------------------------------------------------------
// Laws

/// A file that was put in place by this run is never unlinked as an orphan,
/// under any spelling.
pub proof fn law_live_files_are_not_unlinked(
    plan: OrganizePlan,
    op: OrganizeOperation,
    p: Progress,
    e: Answer,
    i: usize,
)
    requires
        p.stage != Stage::Unlinking(i),
        after(plan, op, p, e).stage == Stage::Unlinking(i),
    ensures
        e is Checked,
        !has_spelling(p.occupied, plan.file_orphans@[i as int].path@, e->resolved, p.fold),
        after(plan, op, p, e).occupied == p.occupied,
{
}

/// A move only begins where nothing stands at its destination, or a pending
/// orphan, or the file itself under another spelling.
pub proof fn law_moves_overwrite_nothing_else(
    plan: OrganizePlan,
    op: OrganizeOperation,
    p: Progress,
    e: Answer,
    i: usize,
)
    requires
        p.stage != Stage::Moving(i),
        after(plan, op, p, e).stage == Stage::Moving(i),
    ensures
        e is Checked,
        !e->exists || has_spelling(p.exempt, plan.moves@[i as int].to@, e->resolved, p.fold)
            || one_place(e->second_resolved, e->resolved),
{
    assert(p.stage == Stage::MoveCheck(i));
    assert(after(plan, op, p, e) == after_move(plan, op, p, e));
    assert(!(enter_moves(plan, i + 1) is Moving));
}

/// A copy only begins where nothing stands at its destination but the file
/// itself.
pub proof fn law_copies_overwrite_nothing(
    plan: OrganizePlan,
    op: OrganizeOperation,
    p: Progress,
    e: Answer,
    i: usize,
)
    requires
        p.stage != Stage::Copying(i),
        after(plan, op, p, e).stage == Stage::Copying(i),
    ensures
        e is Checked,
        !e->exists || one_place(e->second_resolved, e->resolved),
{
    assert(p.stage == Stage::CopyCheck(i));
    assert(after(plan, op, p, e) == after_copy(plan, p, e));
    assert(!(enter_copies(plan, i + 1) is Copying));
}

/// The row of a missing track is removed only right after its file was seen
/// to be missing, and never while the plan holds rows back.
pub proof fn law_rows_go_only_with_their_files(
    plan: OrganizePlan,
    op: OrganizeOperation,
    p: Progress,
    e: Answer,
    i: usize,
)
    requires
        stage_ok(plan, p.stage),
        p.stage != Stage::PruneRow(i),
        after(plan, op, p, e).stage == Stage::PruneRow(i),
    ensures
        p.stage == Stage::PruneCheck(i),
        e is Checked,
        !e->exists,
        plan.prune_blocked_reason is None,
{
}

/// How much of a run is left: the list at hand, then the item, then its step.
pub open spec fn rest(plan: OrganizePlan, s: Stage) -> (int, int, int) {
    match s {
        Stage::Exempt(i) => (8, plan.file_orphans@.len() - i, 0),
        Stage::MoveCheck(i) => (7, plan.moves@.len() - i, 4),
        Stage::Moving(i) => (7, plan.moves@.len() - i, 3),
        Stage::MoveRow(i) => (7, plan.moves@.len() - i, 2),
        Stage::MoveCollection(i) => (7, plan.moves@.len() - i, 1),
        Stage::MoveReal(i) => (7, plan.moves@.len() - i, 0),
        Stage::Backfill(i) => (6, plan.copy_backfills@.len() - i, 0),
        Stage::CopyCheck(i) => (5, plan.copies@.len() - i, 3),
        Stage::Copying(i) => (5, plan.copies@.len() - i, 2),
        Stage::CopyRow(i) => (5, plan.copies@.len() - i, 1),
        Stage::CopyReal(i) => (5, plan.copies@.len() - i, 0),
        Stage::Covering(i) => (4, plan.cover_moves@.len() - i, 2),
        Stage::CoverRow(i) => (4, plan.cover_moves@.len() - i, 1),
        Stage::CoverReal(i) => (4, plan.cover_moves@.len() - i, 0),
        Stage::PruneCheck(i) => (3, plan.missing_sources@.len() - i, 1),
        Stage::PruneRow(i) => (3, plan.missing_sources@.len() - i, 0),
        Stage::OrphanCheck(i) => (2, plan.file_orphans@.len() - i, 2),
        Stage::Unlinking(i) => (2, plan.file_orphans@.len() - i, 1),
        Stage::OrphanRow(i, _) => (2, plan.file_orphans@.len() - i, 0),
        Stage::Finished => (0, 0, 0),
    }
}

/// Whether less is left at `b` than at `a`.
pub open spec fn less_left(a: (int, int, int), b: (int, int, int)) -> bool {
    b.0 < a.0 || (b.0 == a.0 && b.1 < a.1) || (b.0 == a.0 && b.1 == a.1 && b.2 < a.2)
}

/// Every event that answers its stage brings the run nearer to its end, and
/// no step leaves the plan's lists.
pub proof fn law_every_answer_makes_progress(
    plan: OrganizePlan,
    op: OrganizeOperation,
    p: Progress,
    e: Answer,
)
    requires
        stage_ok(plan, p.stage),
    ensures
        stage_ok(plan, after(plan, op, p, e).stage),
        after(plan, op, p, e) == p || less_left(
            rest(plan, p.stage),
            rest(plan, after(plan, op, p, e).stage),
        ),
{
    assert(plan.moves.len() == plan.moves@.len());
    assert(plan.copies.len() == plan.copies@.len());
    assert(plan.copy_backfills.len() == plan.copy_backfills@.len());
    assert(plan.cover_moves.len() == plan.cover_moves@.len());
    assert(plan.missing_sources.len() == plan.missing_sources@.len());
    assert(plan.file_orphans.len() == plan.file_orphans@.len());
    let q = after(plan, op, p, e);
    match p.stage {
        Stage::MoveCheck(i)
        | Stage::Moving(i)
        | Stage::MoveRow(i)
        | Stage::MoveCollection(i)
        | Stage::MoveReal(i) => {
            assert(q == after_move(plan, op, p, e));
            assert(stage_ok(plan, enter_moves(plan, i + 1)));
            assert(less_left(rest(plan, p.stage), rest(plan, enter_moves(plan, i + 1))));
        },
        Stage::Backfill(i) => {
            assert(q == after_copy(plan, p, e));
            assert(stage_ok(plan, enter_backfills(plan, i + 1)));
            assert(less_left(rest(plan, p.stage), rest(plan, enter_backfills(plan, i + 1))));
        },
        Stage::CopyCheck(i) | Stage::Copying(i) | Stage::CopyRow(i) | Stage::CopyReal(i) => {
            assert(q == after_copy(plan, p, e));
            assert(stage_ok(plan, enter_copies(plan, i + 1)));
            assert(less_left(rest(plan, p.stage), rest(plan, enter_copies(plan, i + 1))));
        },
        Stage::Covering(i) | Stage::CoverRow(i) | Stage::CoverReal(i) => {
            assert(q == after_cover(plan, op, p, e));
            assert(stage_ok(plan, enter_covers(plan, i + 1)));
            assert(less_left(rest(plan, p.stage), rest(plan, enter_covers(plan, i + 1))));
        },
        Stage::Exempt(i) => {
            assert(q == after_prune(plan, p, e));
            assert(stage_ok(plan, enter_exempt(plan, i + 1)));
            assert(less_left(rest(plan, p.stage), rest(plan, enter_exempt(plan, i + 1))));
        },
        Stage::PruneCheck(i) | Stage::PruneRow(i) => {
            assert(q == after_prune(plan, p, e));
            assert(stage_ok(plan, enter_prune(plan, i + 1)));
            assert(less_left(rest(plan, p.stage), rest(plan, enter_prune(plan, i + 1))));
        },
        Stage::OrphanCheck(i) | Stage::Unlinking(i) | Stage::OrphanRow(i, _) => {
            assert(q == after_prune(plan, p, e));
            assert(stage_ok(plan, enter_orphans(plan, i + 1)));
            assert(less_left(rest(plan, p.stage), rest(plan, enter_orphans(plan, i + 1))));
        },
        Stage::Finished => {},
    }
}


/// A run goes through its moves, the copies that are only recorded, the
/// copies, the covers, the missing rows and the orphans, in this order; each
/// file that arrived makes way for the next.
pub proof fn law_runs_go_through_the_plan_in_order(
    plan: OrganizePlan,
    op: OrganizeOperation,
    p: Progress,
    i: usize,
    e: Answer,
)
    requires
        e is Checked,
    ensures
        ({
            let s = after(plan, op, p, e).stage;
            &&& p.stage == Stage::MoveReal(i) && i + 1 < plan.moves@.len() ==> s == Stage::MoveCheck(
                (i + 1) as usize,
            )
            &&& p.stage == Stage::MoveReal(i) && i + 1 >= plan.moves@.len()
                && plan.copy_backfills@.len() > 0 ==> s == Stage::Backfill(0)
            &&& p.stage == Stage::MoveReal(i) && i + 1 >= plan.moves@.len()
                && plan.copy_backfills@.len() == 0 && plan.copies@.len() > 0 ==> s
                == Stage::CopyCheck(0)
            &&& p.stage == Stage::CopyReal(i) && i + 1 < plan.copies@.len() ==> s
                == Stage::CopyCheck((i + 1) as usize)
            &&& p.stage == Stage::CopyReal(i) && i + 1 >= plan.copies@.len()
                && plan.cover_moves@.len() > 0 ==> s == Stage::Covering(0)
            &&& p.stage == Stage::CoverReal(i) && i + 1 < plan.cover_moves@.len() ==> s
                == Stage::Covering((i + 1) as usize)
            &&& p.stage == Stage::CoverReal(i) && i + 1 >= plan.cover_moves@.len()
                && plan.missing_sources@.len() > 0 && plan.prune_blocked_reason is None ==> s
                == Stage::PruneCheck(0)
            &&& p.stage == Stage::CoverReal(i) && i + 1 >= plan.cover_moves@.len()
                && plan.prune_blocked_reason is Some && plan.file_orphans@.len() > 0 ==> s
                == Stage::OrphanCheck(0)
            &&& p.stage == Stage::Exempt(i) && i + 1 < plan.file_orphans@.len() ==> s
                == Stage::Exempt((i + 1) as usize)
            &&& p.stage == Stage::Exempt(i) && i + 1 >= plan.file_orphans@.len()
                && plan.moves@.len() > 0 ==> s == Stage::MoveCheck(0)
        }),
        plan.file_orphans@.len() == 0 && plan.moves@.len() > 0 ==> fresh(plan, p.fold).stage
            == Stage::MoveCheck(0),
        plan.file_orphans@.len() > 0 ==> fresh(plan, p.fold).stage == Stage::Exempt(0),
{
}

/// A file that was moved is recorded under its new path, and in its
/// collection where it lives in one, before it counts as moved.
pub proof fn law_moves_are_recorded_before_they_count(
    plan: OrganizePlan,
    op: OrganizeOperation,
    p: Progress,
    i: usize,
    e: Answer,
)
    ensures
        p.stage == Stage::Moving(i) ==> after(plan, op, p, Answer::Done).stage == Stage::MoveRow(i),
        p.stage == Stage::MoveRow(i) && plan.moves@[i as int].also_collection is Some ==> after(
            plan,
            op,
            p,
            Answer::Done,
        ).stage == Stage::MoveCollection(i),
        p.stage == Stage::MoveRow(i) && plan.moves@[i as int].also_collection is None ==> after(
            plan,
            op,
            p,
            Answer::Done,
        ).stage == Stage::MoveReal(i),
        p.stage == Stage::Copying(i) ==> after(plan, op, p, Answer::Done).stage == Stage::CopyRow(
            i,
        ),
        p.stage == Stage::Covering(i) ==> after(plan, op, p, Answer::Done).stage == Stage::CoverRow(
            i,
        ),
        after(plan, op, p, e).moved != p.moved ==> p.stage is MoveReal,
        after(plan, op, p, e).copied != p.copied ==> p.stage is CopyReal,
        after(plan, op, p, e).covers_moved != p.covers_moved ==> p.stage is CoverReal,
        after(plan, op, p, e).orphans_cleaned != p.orphans_cleaned ==> p.stage is PruneRow && e is Done,
        after(plan, op, p, e).file_orphans_removed != p.file_orphans_removed
            ==> p.stage is OrphanRow && e is Done,
{
}

/// What arrived is counted once, each kind on its own; the directory of a
/// file is swept only where the file was moved, not where it was copied.
pub proof fn law_what_arrived_is_counted(
    plan: OrganizePlan,
    op: OrganizeOperation,
    p: Progress,
    i: usize,
    e: Answer,
)
    requires
        e is Checked,
        p.moved < u32::MAX,
        p.copied < u32::MAX,
        p.covers_moved < u32::MAX,
    ensures
        ({
            let n = after(plan, op, p, e);
            &&& p.stage == Stage::MoveReal(i) ==> n.moved == p.moved + 1 && n.copied == p.copied
                && n.covers_moved == p.covers_moved
            &&& p.stage == Stage::MoveReal(i) && op is Copy ==> n.emptied == p.emptied
            &&& p.stage == Stage::MoveReal(i) && op is Move && crate::paths::parent_of(
                plan.moves@[i as int].from@,
            ) is Some ==> n.emptied == p.emptied.push(
                crate::paths::parent_of(plan.moves@[i as int].from@)->0,
            )
            &&& p.stage == Stage::CopyReal(i) ==> n.copied == p.copied + 1 && n.moved == p.moved
                && n.emptied == p.emptied
            &&& p.stage == Stage::CoverReal(i) ==> n.covers_moved == p.covers_moved + 1 && n.moved
                == p.moved && n.copied == p.copied
            &&& p.stage == Stage::CoverReal(i) && op is Copy ==> n.emptied == p.emptied
            &&& p.stage is MoveReal || p.stage is CopyReal || p.stage is CoverReal ==> n.errors
                == p.errors
        }),
{
}

/// What fails is reported under the path that it was about, and nothing else
/// changes: the run goes on with the next file.
pub proof fn law_failures_are_reported(
    plan: OrganizePlan,
    op: OrganizeOperation,
    p: Progress,
    i: usize,
    why: Seq<char>,
)
    ensures
        ({
            let n = after(plan, op, p, Answer::Failed(why));
            &&& p.stage == Stage::Moving(i) ==> n.errors == p.errors.push(
                (plan.moves@[i as int].from@, why),
            )
            &&& p.stage == Stage::Copying(i) ==> n.errors == p.errors.push(
                (plan.copies@[i as int].from@, why),
            )
            &&& p.stage == Stage::Covering(i) ==> n.errors == p.errors.push(
                (plan.cover_moves@[i as int].from@, why),
            )
            &&& p.stage == Stage::Unlinking(i) ==> n.errors.len() == p.errors.len() + 1
                && n.errors.last().0 == plan.file_orphans@[i as int].path@
            &&& p.stage == Stage::Moving(i) && i + 1 < plan.moves@.len() ==> n.stage
                == Stage::MoveCheck((i + 1) as usize)
            &&& p.stage == Stage::Copying(i) && i + 1 < plan.copies@.len() ==> n.stage
                == Stage::CopyCheck((i + 1) as usize)
            &&& n.moved == p.moved && n.copied == p.copied && n.covers_moved == p.covers_moved
                && n.orphans_cleaned == p.orphans_cleaned && n.file_orphans_removed
                == p.file_orphans_removed && n.emptied == p.emptied
        }),
{
}

} // verus!
