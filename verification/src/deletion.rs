//! Carrying out a deletion: files first, if they are to go, then rows.
//!
//! Like an organize run, a deletion names one action at a time and is told
//! what came of it. A file is only unlinked if it lies strictly inside one of
//! the managed roots, whatever the plan says.
use crate::paths::{parent, path_is_strictly_inside};
use crate::sweep::Sweep;
use crate::text::{signed_text, views};
use vstd::prelude::*;

verus! {

/// All that is to be deleted.
#[derive(Debug)]
pub struct Job {
    /// Files to unlink.
    pub files: Vec<String>,
    /// New paths of tracks whose file goes while a copy stays.
    pub promotions: Vec<(i64, String)>,
    pub track_ids: Vec<i64>,
    pub album_ids: Vec<i64>,
    /// The collection that goes, by id and name.
    pub collection: Option<(i64, String)>,
    /// The roots inside which files may be unlinked.
    pub roots: Vec<String>,
}

/// Where a deletion stands.
#[derive(Debug, Clone, Copy, PartialEq, Eq, Structural)]
pub enum Step {
    FileCheck(usize),
    Unlinking(usize),
    Promoting(usize),
    TrackRow(usize),
    AlbumRow(usize),
    CollectionRow,
    Finished,
}

/// What is to be done next.
#[derive(Debug)]
pub enum Order {
    /// See whether a file exists.
    Look { path: String },
    Unlink { path: String },
    SetTrackPath { track_id: i64, path: String },
    DeleteTrack { track_id: i64 },
    DeleteAlbum { album_id: i64 },
    DeleteCollection { collection_id: i64 },
    /// Nothing is left but to sweep up.
    Finish,
}

/// What came of it.
#[derive(Debug)]
pub enum Reply {
    Exists(bool),
    Done,
    Failed(String),
}

/// The end, after the collection if there is one.
pub open spec fn enter_collection(job: Job) -> Step {
    if job.collection is Some { Step::CollectionRow } else { Step::Finished }
}

/// The albums from `i` on.
pub open spec fn enter_albums(job: Job, i: int) -> Step {
    if 0 <= i < job.album_ids@.len() { Step::AlbumRow(i as usize) } else { enter_collection(job) }
}

/// The tracks from `i` on.
pub open spec fn enter_tracks(job: Job, i: int) -> Step {
    if 0 <= i < job.track_ids@.len() { Step::TrackRow(i as usize) } else { enter_albums(job, 0) }
}

/// The promotions from `i` on.
pub open spec fn enter_promotions(job: Job, i: int) -> Step {
    if 0 <= i < job.promotions@.len() { Step::Promoting(i as usize) } else { enter_tracks(job, 0) }
}

/// The files from `i` on.
pub open spec fn enter_files(job: Job, i: int) -> Step {
    if 0 <= i < job.files@.len() { Step::FileCheck(i as usize) } else { enter_promotions(job, 0) }
}

/// Whether a step points into its list, and a file about to be unlinked lies
/// strictly inside a root.
pub open spec fn step_ok(job: Job, s: Step) -> bool {
    match s {
        Step::FileCheck(i) => i < job.files@.len(),
        Step::Unlinking(i) => i < job.files@.len() && crate::paths::below_any(
            job.files@[i as int]@,
            views(job.roots@),
        ),
        Step::Promoting(i) => i < job.promotions@.len(),
        Step::TrackRow(i) => i < job.track_ids@.len(),
        Step::AlbumRow(i) => i < job.album_ids@.len(),
        Step::CollectionRow => job.collection is Some,
        Step::Finished => true,
    }
}

/// Whether `o` is what a step asks for.
pub open spec fn orders(job: Job, s: Step, o: Order) -> bool {
    match (s, o) {
        (Step::FileCheck(i), Order::Look { path }) => path@ == job.files@[i as int]@,
        (Step::Unlinking(i), Order::Unlink { path }) => path@ == job.files@[i as int]@,
        (Step::Promoting(i), Order::SetTrackPath { track_id, path }) => track_id
            == job.promotions@[i as int].0 && path@ == job.promotions@[i as int].1@,
        (Step::TrackRow(i), Order::DeleteTrack { track_id }) => track_id
            == job.track_ids@[i as int],
        (Step::AlbumRow(i), Order::DeleteAlbum { album_id }) => album_id
            == job.album_ids@[i as int],
        (Step::CollectionRow, Order::DeleteCollection { collection_id }) => job.collection is Some
            ==> collection_id == (job.collection->0).0,
        (Step::Finished, Order::Finish) => true,
        _ => false,
    }
}

/// A deletion under way, as mathematical values.
#[verifier::ext_equal]
pub struct Account {
    pub step: Step,
    pub files_deleted: u32,
    pub tracks_deleted: u32,
    pub albums_deleted: u32,
    pub errors: Seq<(Seq<char>, Seq<char>)>,
    pub emptied: Seq<Seq<char>>,
}

/// A reply as mathematical values.
pub enum Outcome {
    Exists(bool),
    Done,
    Failed(Seq<char>),
}

impl View for Reply {
    type V = Outcome;

    open spec fn view(&self) -> Outcome {
        match *self {
            Reply::Exists(b) => Outcome::Exists(b),
            Reply::Done => Outcome::Done,
            Reply::Failed(e) => Outcome::Failed(e@),
        }
    }
}

/// The account with one more error.
pub open spec fn failing(a: Account, what: Seq<char>, why: Seq<char>, next: Step) -> Account {
    Account { errors: a.errors.push((what, why)), step: next, ..a }
}

/// What a reply makes of a deletion. Rows of tracks and albums that cannot be
/// deleted are errors only where a collection goes.
pub open spec fn replied(job: Job, a: Account, e: Outcome) -> Account {
    match (a.step, e) {
        (Step::FileCheck(i), Outcome::Exists(there)) => Account {
            step: if there && crate::paths::below_any(job.files@[i as int]@, views(job.roots@)) {
                Step::Unlinking(i)
            } else {
                enter_files(job, i + 1)
            },
            ..a
        },
        (Step::Unlinking(i), Outcome::Done) => Account {
            step: enter_files(job, i + 1),
            files_deleted: crate::organize_apply::one_more(a.files_deleted),
            emptied: crate::organize_apply::left_behind(a.emptied, job.files@[i as int]@, true),
            ..a
        },
        (Step::Unlinking(i), Outcome::Failed(why)) => failing(
            a,
            job.files@[i as int]@,
            why,
            enter_files(job, i + 1),
        ),
        (Step::Promoting(i), Outcome::Done) => Account { step: enter_promotions(job, i + 1), ..a },
        (Step::Promoting(i), Outcome::Failed(why)) => failing(
            a,
            job.promotions@[i as int].1@,
            "failed to promote surviving track path: "@ + why,
            enter_promotions(job, i + 1),
        ),
        (Step::TrackRow(i), Outcome::Done) => Account {
            step: enter_tracks(job, i + 1),
            tracks_deleted: crate::organize_apply::one_more(a.tracks_deleted),
            ..a
        },
        (Step::TrackRow(i), Outcome::Failed(why)) => if job.collection is Some {
            failing(
                a,
                "track #"@ + crate::text::signed_decimal(job.track_ids@[i as int] as int),
                "failed to delete orphaned track row: "@ + why,
                enter_tracks(job, i + 1),
            )
        } else {
            Account { step: enter_tracks(job, i + 1), ..a }
        },
        (Step::AlbumRow(i), Outcome::Done) => Account {
            step: enter_albums(job, i + 1),
            albums_deleted: crate::organize_apply::one_more(a.albums_deleted),
            ..a
        },
        (Step::AlbumRow(i), Outcome::Failed(_)) => Account { step: enter_albums(job, i + 1), ..a },
        (Step::CollectionRow, Outcome::Done) => Account { step: Step::Finished, ..a },
        (Step::CollectionRow, Outcome::Failed(why)) => failing(
            a,
            (job.collection->0).1@,
            "failed to delete collection row: "@ + why,
            Step::Finished,
        ),
        _ => a,
    }
}

/// A deletion before its first step.
pub open spec fn untouched(job: Job) -> Account {
    Account {
        step: enter_files(job, 0),
        files_deleted: 0,
        tracks_deleted: 0,
        albums_deleted: 0,
        errors: Seq::empty(),
        emptied: Seq::empty(),
    }
}

/// A deletion under way.
#[derive(Debug)]
pub struct Deletion {
    step: Step,
    files_deleted: u32,
    tracks_deleted: u32,
    albums_deleted: u32,
    errors: Vec<(String, String)>,
    emptied: Vec<String>,
}

impl View for Deletion {
    type V = Account;

    closed spec fn view(&self) -> Account {
        Account {
            step: self.step,
            files_deleted: self.files_deleted,
            tracks_deleted: self.tracks_deleted,
            albums_deleted: self.albums_deleted,
            errors: crate::organize_apply::error_views(self.errors@),
            emptied: views(self.emptied@),
        }
    }
}

/// What a deletion came to.
#[derive(Debug)]
pub struct Tallied {
    pub files_deleted: u32,
    pub tracks_deleted: u32,
    pub albums_deleted: u32,
    pub errors: Vec<(String, String)>,
}

fn count_one(n: u32) -> (r: u32)
    ensures
        r == crate::organize_apply::one_more(n),
{
    if n < u32::MAX {
        n + 1
    } else {
        n
    }
}

fn past(i: usize, len: usize) -> (r: usize)
    requires
        i < len,
    ensures
        r == i + 1,
{
    i + 1
}

fn to_albums(job: &Job, i: usize) -> (r: Step)
    ensures
        r == enter_albums(*job, i as int),
{
    if i < job.album_ids.len() {
        Step::AlbumRow(i)
    } else if job.collection.is_some() {
        Step::CollectionRow
    } else {
        Step::Finished
    }
}

fn to_tracks(job: &Job, i: usize) -> (r: Step)
    ensures
        r == enter_tracks(*job, i as int),
{
    if i < job.track_ids.len() {
        Step::TrackRow(i)
    } else {
        to_albums(job, 0)
    }
}

fn to_promotions(job: &Job, i: usize) -> (r: Step)
    ensures
        r == enter_promotions(*job, i as int),
{
    if i < job.promotions.len() {
        Step::Promoting(i)
    } else {
        to_tracks(job, 0)
    }
}

fn to_files(job: &Job, i: usize) -> (r: Step)
    ensures
        r == enter_files(*job, i as int),
{
    if i < job.files.len() {
        Step::FileCheck(i)
    } else {
        to_promotions(job, 0)
    }
}

impl Deletion {
    /// Begins a deletion.
    pub fn new(job: &Job) -> (r: Self)
        ensures
            r@ == untouched(*job),
            step_ok(*job, r@.step),
    {
        let r = Deletion {
            step: to_files(job, 0),
            files_deleted: 0,
            tracks_deleted: 0,
            albums_deleted: 0,
            errors: Vec::new(),
            emptied: Vec::new(),
        };
        assert(r@ =~= untouched(*job));
        r
    }

    /// What is to be done next. A file is only named for unlinking where it
    /// lies strictly inside a root.
    pub fn order(&self, job: &Job) -> (r: Order)
        requires
            step_ok(*job, self@.step),
        ensures
            orders(*job, self@.step, r),
            r matches Order::Unlink { path } ==> crate::paths::below_any(path@, views(job.roots@)),
    {
        match self.step {
            Step::FileCheck(i) => Order::Look { path: job.files[i].clone() },
            Step::Unlinking(i) => Order::Unlink { path: job.files[i].clone() },
            Step::Promoting(i) => Order::SetTrackPath {
                track_id: job.promotions[i].0,
                path: job.promotions[i].1.clone(),
            },
            Step::TrackRow(i) => Order::DeleteTrack { track_id: job.track_ids[i] },
            Step::AlbumRow(i) => Order::DeleteAlbum { album_id: job.album_ids[i] },
            Step::CollectionRow => Order::DeleteCollection {
                collection_id: match &job.collection {
                    Some(c) => c.0,
                    None => 0,
                },
            },
            Step::Finished => Order::Finish,
        }
    }

    fn fail(&mut self, what: &str, why: String, next: Step)
        ensures
            final(self)@ == failing(old(self)@, what@, why@, next),
    {
        self.errors.push((what.to_owned(), why));
        self.step = next;
        assert(crate::organize_apply::error_views(self.errors@)
            =~= crate::organize_apply::error_views(old(self).errors@).push((what@, why@)));
        assert(self@ =~= failing(old(self)@, what@, why@, next));
    }

    /// Takes in what came of the order.
    pub fn reply(&mut self, job: &Job, e: &Reply)
        requires
            step_ok(*job, old(self)@.step),
        ensures
            final(self)@ == replied(*job, old(self)@, e@),
            step_ok(*job, final(self)@.step),
    {
        match (self.step, e) {
            (Step::FileCheck(i), Reply::Exists(there)) => {
                self.step = if *there && path_is_strictly_inside(job.files[i].as_str(), &job.roots) {
                    Step::Unlinking(i)
                } else {
                    to_files(job, past(i, job.files.len()))
                };
            },
            (Step::Unlinking(i), Reply::Done) => {
                self.files_deleted = count_one(self.files_deleted);
                if let Some(d) = parent(job.files[i].as_str()) {
                    self.emptied.push(d);
                    assert(views(self.emptied@) =~= views(old(self).emptied@).push(d@));
                }
                self.step = to_files(job, past(i, job.files.len()));
            },
            (Step::Unlinking(i), Reply::Failed(why)) => {
                self.fail(
                    job.files[i].as_str(),
                    why.clone(),
                    to_files(job, past(i, job.files.len())),
                );
            },
            (Step::Promoting(i), Reply::Done) => {
                self.step = to_promotions(job, past(i, job.promotions.len()));
            },
            (Step::Promoting(i), Reply::Failed(why)) => {
                let mut text = "failed to promote surviving track path: ".to_owned();
                text.append(why.as_str());
                self.fail(
                    job.promotions[i].1.as_str(),
                    text,
                    to_promotions(job, past(i, job.promotions.len())),
                );
            },
            (Step::TrackRow(i), Reply::Done) => {
                self.tracks_deleted = count_one(self.tracks_deleted);
                self.step = to_tracks(job, past(i, job.track_ids.len()));
            },
            (Step::TrackRow(i), Reply::Failed(why)) => {
                let next = to_tracks(job, past(i, job.track_ids.len()));
                if job.collection.is_some() {
                    let mut what = "track #".to_owned();
                    let id = signed_text(job.track_ids[i]);
                    what.append(id.as_str());
                    let mut text = "failed to delete orphaned track row: ".to_owned();
                    text.append(why.as_str());
                    self.fail(what.as_str(), text, next);
                } else {
                    self.step = next;
                }
            },
            (Step::AlbumRow(i), Reply::Done) => {
                self.albums_deleted = count_one(self.albums_deleted);
                self.step = to_albums(job, past(i, job.album_ids.len()));
            },
            (Step::AlbumRow(i), Reply::Failed(_)) => {
                self.step = to_albums(job, past(i, job.album_ids.len()));
            },
            (Step::CollectionRow, Reply::Done) => {
                self.step = Step::Finished;
            },
            (Step::CollectionRow, Reply::Failed(why)) => {
                let name: &str = match &job.collection {
                    Some(c) => c.1.as_str(),
                    None => "",
                };
                let mut text = "failed to delete collection row: ".to_owned();
                text.append(why.as_str());
                self.fail(name, text, Step::Finished);
            },
            _ => {},
        }
    }

    /// Begins to sweep up the directories that files have left.
    pub fn sweep(&self, job: &Job) -> (r: Sweep)
        ensures
            r.wf(),
            r.roots() == views(job.roots@),
            r.count() == 0,
            (r.at(), r.left()) == crate::sweep::settle(
                views(job.roots@),
                None,
                crate::sweep::deepest_first(self@.emptied),
            ),
    {
        Sweep::start(&self.emptied, &job.roots)
    }

    /// What the deletion came to.
    pub fn finish(self) -> (r: Tallied)
        ensures
            r.files_deleted == self@.files_deleted,
            r.tracks_deleted == self@.tracks_deleted,
            r.albums_deleted == self@.albums_deleted,
            crate::organize_apply::error_views(r.errors@) == self@.errors,
    {
        Tallied {
            files_deleted: self.files_deleted,
            tracks_deleted: self.tracks_deleted,
            albums_deleted: self.albums_deleted,
            errors: self.errors,
        }
    }
}

/// A file is only unlinked if it was just seen on disk and lies strictly
/// inside a managed root, whatever list it came from.
pub proof fn law_only_managed_files_are_unlinked(job: Job, a: Account, e: Outcome, i: usize)
    requires
        step_ok(job, a.step),
        a.step != Step::Unlinking(i),
        replied(job, a, e).step == Step::Unlinking(i),
    ensures
        a.step == Step::FileCheck(i),
        e == Outcome::Exists(true),
        crate::paths::below_any(job.files@[i as int]@, views(job.roots@)),
{
    assert(!(enter_files(job, i + 1) is Unlinking));
}

/// Without files to delete nothing on disk is touched: the deletion goes
/// through rows alone.
pub proof fn law_no_files_no_unlink(job: Job, a: Account, e: Outcome)
    requires
        job.files@.len() == 0,
        step_ok(job, a.step),
    ensures
        !(untouched(job).step is Unlinking) && !(untouched(job).step is FileCheck),
        !(replied(job, a, e).step is Unlinking),
        replied(job, a, e).emptied == a.emptied,
        replied(job, a, e).files_deleted == a.files_deleted,
{
}


/// A deletion goes through its files, then the promotions, then the rows of
/// tracks and albums, and last that of the collection; whatever comes of one,
/// it goes on with the next.
pub proof fn law_deletions_go_through_everything(job: Job, a: Account, i: usize, e: Outcome)
    requires
        !(e is Exists),
    ensures
        ({
            let s = replied(job, a, e).step;
            &&& a.step == Step::Unlinking(i) && i + 1 < job.files@.len() ==> s == Step::FileCheck(
                (i + 1) as usize,
            )
            &&& a.step == Step::Unlinking(i) && i + 1 >= job.files@.len() && job.promotions@.len()
                > 0 ==> s == Step::Promoting(0)
            &&& a.step == Step::Promoting(i) && i + 1 < job.promotions@.len() ==> s
                == Step::Promoting((i + 1) as usize)
            &&& a.step == Step::Promoting(i) && i + 1 >= job.promotions@.len()
                && job.track_ids@.len() > 0 ==> s == Step::TrackRow(0)
            &&& a.step == Step::TrackRow(i) && i + 1 < job.track_ids@.len() ==> s
                == Step::TrackRow((i + 1) as usize)
            &&& a.step == Step::TrackRow(i) && i + 1 >= job.track_ids@.len()
                && job.album_ids@.len() > 0 ==> s == Step::AlbumRow(0)
            &&& a.step == Step::AlbumRow(i) && i + 1 < job.album_ids@.len() ==> s
                == Step::AlbumRow((i + 1) as usize)
            &&& a.step == Step::AlbumRow(i) && i + 1 >= job.album_ids@.len() && job.collection is Some
                ==> s == Step::CollectionRow
            &&& a.step == Step::CollectionRow ==> s == Step::Finished
        }),
        job.files@.len() > 0 ==> untouched(job).step == Step::FileCheck(0),
        job.files@.len() == 0 && job.promotions@.len() == 0 && job.track_ids@.len() > 0
            ==> untouched(job).step == Step::TrackRow(0),
{
}

/// What is deleted is counted, each kind on its own, and what fails is not:
/// a file that cannot be unlinked is an error under its path.
pub proof fn law_only_what_is_deleted_is_counted(job: Job, a: Account, i: usize, why: Seq<char>)
    requires
        a.files_deleted < u32::MAX,
        a.tracks_deleted < u32::MAX,
        a.albums_deleted < u32::MAX,
    ensures
        ({
            let d = replied(job, a, Outcome::Done);
            let f = replied(job, a, Outcome::Failed(why));
            &&& a.step == Step::Unlinking(i) ==> d.files_deleted == a.files_deleted + 1
                && d.tracks_deleted == a.tracks_deleted && d.albums_deleted == a.albums_deleted
                && f.errors == a.errors.push((job.files@[i as int]@, why))
            &&& a.step == Step::TrackRow(i) ==> d.tracks_deleted == a.tracks_deleted + 1
                && d.files_deleted == a.files_deleted && d.albums_deleted == a.albums_deleted
            &&& a.step == Step::AlbumRow(i) ==> d.albums_deleted == a.albums_deleted + 1
                && d.files_deleted == a.files_deleted && d.tracks_deleted == a.tracks_deleted
            &&& a.step == Step::TrackRow(i) && job.collection is None ==> f.errors == a.errors
            &&& a.step == Step::TrackRow(i) && job.collection is Some ==> f.errors.len()
                == a.errors.len() + 1
            &&& a.step == Step::CollectionRow && job.collection is Some ==> f.errors.len()
                == a.errors.len() + 1 && f.errors.last().0 == (job.collection->0).1@
            &&& d.errors == a.errors
            &&& f.files_deleted == a.files_deleted && f.tracks_deleted == a.tracks_deleted
                && f.albums_deleted == a.albums_deleted
        }),
{
}

} // verus!
