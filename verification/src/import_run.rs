//! A whole import, step by step: every scanned file is looked at, the
//! collection is made and joined, and the batches are inserted. Files and
//! rows are touched elsewhere; here stands what is done when, and what comes
//! of it.
use vstd::prelude::*;

use crate::importer::{
    batch_result, batch_total, batches_hold, best_cover, capped, detect_sibling_cover, is_import_plan,
    joined_result, lemma_plan_holds, lemma_plan_total, makes_collection, plan_import, took_in, with_result,
    ImportBatch, ImportResult, Intake, Intaken,
};
use crate::rows::copy_text;
use crate::text::{copy_all, opt_view, views};

verus! {

/// How far an import has come.
#[derive(Debug, Clone, Copy, PartialEq, Eq, Structural)]
pub enum ImportStage {
    /// Looking at a scanned file.
    TakingIn(usize),
    /// Making the collection.
    Collection,
    /// Adding a known track to the collection.
    Joining(usize),
    /// Making the album of a batch.
    Album(usize),
    /// Looking for the cover of that album.
    CoverSearch(usize),
    /// Recording its cover.
    Cover(usize),
    /// Inserting a track of a batch.
    Inserting(usize, usize),
    /// Adding the tracks of a batch to the collection.
    Members(usize),
    /// Making the insertions last.
    Committing,
    Over,
}

/// What is to be done.
pub enum ImportAction {
    /// Look whether the library has a file, and read it if not.
    TakeIn { file: String },
    /// Find or make a collection.
    MakeCollection { name: String },
    /// Add one known track to the collection.
    Join { collection_id: i64, track_id: i64 },
    /// Find or make the album of a batch.
    MakeAlbum { batch: usize },
    /// List the files of a directory.
    ListFiles { dir: String },
    SetCover { album_id: i64, path: String },
    /// Insert the track at a position of the intake.
    Insert { track: usize, album_id: Option<i64> },
    /// Add tracks to the collection, in order.
    AddMembers { collection_id: i64, track_ids: Vec<i64> },
    Commit,
    Nothing,
}

/// What came of it.
pub enum ImportEvent {
    Seen { abs_path: String, seen: Intaken },
    Collection { id: i64, created: bool },
    Joined { added: bool },
    Album { id: i64, created: bool },
    Files(Vec<String>),
    Inserted { id: i64 },
    Done,
}

/// An import that runs.
pub struct ImportRun {
    files: Vec<String>,
    collection: Option<String>,
    loose: bool,
    pretend: bool,
    intake: Intake,
    batches: Vec<ImportBatch>,
    collection_id: Option<i64>,
    album: Option<(i64, bool)>,
    cover: Option<String>,
    ids: Vec<i64>,
    stage: ImportStage,
}

/// What an import is about, and how far it has come.
pub struct Importing {
    pub files: Seq<Seq<char>>,
    pub collection: Option<Seq<char>>,
    pub loose: bool,
    /// Whether nothing is to change.
    pub pretend: bool,
    pub intake: Intake,
    pub batches: Seq<ImportBatch>,
    pub collection_id: Option<i64>,
    /// The album of the present batch, and whether it is new.
    pub album: Option<(i64, bool)>,
    pub cover: Option<Seq<char>>,
    /// The tracks of the present batch that were inserted.
    pub ids: Seq<i64>,
    pub stage: ImportStage,
}

/// The stage at which batch `b` begins, or the end where there is no more.
pub open spec fn batch_stage(s: Importing, b: int) -> ImportStage {
    if b >= s.batches.len() {
        ImportStage::Committing
    } else if s.batches[b].album is Some {
        ImportStage::Album(b as usize)
    } else {
        ImportStage::Inserting(b as usize, 0)
    }
}

/// Whether `t` follows `s` once everything is known that is inserted.
pub open spec fn begins_inserting(s: Importing, t: Importing) -> bool {
    if !s.pretend && s.intake.tracks@.len() > 0 {
        &&& is_import_plan(t.batches, s.intake.tracks@, s.intake.tags@, s.loose)
        &&& t == (Importing { batches: t.batches, stage: batch_stage(t, 0), ..s })
    } else {
        t == (Importing { stage: ImportStage::Over, ..s })
    }
}

/// Whether `t` follows `s` once known track `k` is the next to join.
pub open spec fn joins_from(s: Importing, k: int, t: Importing) -> bool {
    if k < s.intake.duplicates@.len() {
        t == (Importing { stage: ImportStage::Joining(k as usize), ..s })
    } else {
        begins_inserting(s, t)
    }
}

/// An import whose present batch is done.
pub open spec fn batch_over(s: Importing, b: int) -> Importing {
    let created = match s.album {
        Some((_, created)) => Some(created),
        None => None,
    };
    let done = Importing {
        intake: with_result(s.intake, batch_result(s.intake.result, created, capped(s.ids.len()))),
        album: None,
        cover: None,
        ids: Seq::empty(),
        ..s
    };
    Importing { stage: batch_stage(done, b + 1), ..done }
}

/// An import at the insertion of track `j` of batch `b`, or past the last.
pub open spec fn inserts_from(s: Importing, b: int, j: int) -> Importing {
    if j < s.batches[b].order@.len() {
        Importing { stage: ImportStage::Inserting(b as usize, j as usize), ..s }
    } else if s.collection_id is Some {
        Importing { stage: ImportStage::Members(b as usize), ..s }
    } else {
        batch_over(s, b)
    }
}

/// Whether `t` follows `s` upon an event. One that does not suit the stage
/// changes nothing.
pub open spec fn follows(s: Importing, e: ImportEvent, t: Importing) -> bool {
    match (s.stage, e) {
        (ImportStage::TakingIn(i), ImportEvent::Seen { abs_path, seen }) => {
            let m = Importing { intake: t.intake, ..s };
            &&& took_in(s.intake, s.files[i as int], abs_path, s.collection is Some, seen, t.intake)
            &&& if i + 1 < s.files.len() {
                t == (Importing { stage: ImportStage::TakingIn((i + 1) as usize), ..m })
            } else if s.collection is Some && !s.pretend {
                t == (Importing { stage: ImportStage::Collection, ..m })
            } else {
                begins_inserting(m, t)
            }
        },
        (ImportStage::Collection, ImportEvent::Collection { id, created }) => joins_from(
            Importing {
                collection_id: Some(id),
                intake: with_result(
                    s.intake,
                    ImportResult { collection_created: created, ..s.intake.result },
                ),
                ..s
            },
            0,
            t,
        ),
        (ImportStage::Joining(k), ImportEvent::Joined { added }) => joins_from(
            Importing {
                intake: with_result(s.intake, joined_result(s.intake.result, added)),
                ..s
            },
            k + 1,
            t,
        ),
        (ImportStage::Album(b), ImportEvent::Album { id, created }) => {
            let m = Importing { album: Some((id, created)), ..s };
            if s.batches[b as int].album->0.cover_dir is Some {
                t == (Importing { stage: ImportStage::CoverSearch(b), ..m })
            } else {
                t == inserts_from(m, b as int, 0)
            }
        },
        (ImportStage::CoverSearch(b), ImportEvent::Files(files)) => match best_cover(
            views(files@),
            0,
        ) {
            Some(path) => t == (Importing {
                cover: Some(path),
                stage: ImportStage::Cover(b),
                ..s
            }),
            None => t == inserts_from(s, b as int, 0),
        },
        (ImportStage::Cover(b), ImportEvent::Done) => t == inserts_from(s, b as int, 0),
        (ImportStage::Inserting(b, j), ImportEvent::Inserted { id }) => t == inserts_from(
            Importing { ids: s.ids.push(id), ..s },
            b as int,
            j + 1,
        ),
        (ImportStage::Members(b), ImportEvent::Done) => t == batch_over(s, b as int),
        (ImportStage::Committing, ImportEvent::Done) => t == (Importing {
            stage: ImportStage::Over,
            ..s
        }),
        _ => t == s,
    }
}

/// The album of the present batch, if it has one.
pub open spec fn album_id(s: Importing) -> Option<i64> {
    match s.album {
        Some((id, _)) => Some(id),
        None => None,
    }
}

/// Whether an action is the one of a stage.
pub open spec fn is_action(s: Importing, a: ImportAction) -> bool {
    match s.stage {
        ImportStage::TakingIn(i) => a is TakeIn && a->file@ == s.files[i as int],
        ImportStage::Collection => a is MakeCollection && Some(a->name@) == s.collection,
        ImportStage::Joining(k) => a is Join && Some(a->Join_collection_id) == s.collection_id
            && a->track_id == s.intake.duplicates@[k as int].0,
        ImportStage::Album(b) => a is MakeAlbum && a->batch == b,
        ImportStage::CoverSearch(b) => a is ListFiles && Some(a->dir@) == opt_view(
            s.batches[b as int].album->0.cover_dir,
        ),
        ImportStage::Cover(b) => a is SetCover && Some(a->path@) == s.cover && Some(
            a->SetCover_album_id,
        ) == album_id(s),
        ImportStage::Inserting(b, j) => a is Insert && a->track == s.batches[b as int].order@[j as int]
            && a->Insert_album_id == album_id(s),
        ImportStage::Members(b) => a is AddMembers && Some(a->AddMembers_collection_id)
            == s.collection_id && a->track_ids@ == s.ids,
        ImportStage::Committing => a is Commit,
        ImportStage::Over => a is Nothing,
    }
}

/// Whether the stage is one that the import can be at.
pub open spec fn stands(s: Importing) -> bool {
    &&& s.files.len() <= i64::MAX
    &&& s.files.len() <= usize::MAX
    &&& s.intake.tracks@.len() <= s.files.len()
    &&& s.batches.len() <= usize::MAX
    &&& batches_hold(s.batches, s.intake.tracks@.len())
    &&& s.pretend ==> s.stage is TakingIn || s.stage is Over
    &&& match s.stage {
        ImportStage::TakingIn(i) => i < s.files.len() && s.intake.tracks@.len() <= i,
        ImportStage::Collection => s.collection is Some,
        ImportStage::Joining(k) => k < s.intake.duplicates@.len() && s.collection_id is Some,
        ImportStage::Album(b) => b < s.batches.len() && s.batches[b as int].album is Some,
        ImportStage::CoverSearch(b) => b < s.batches.len() && s.batches[b as int].album is Some
            && s.batches[b as int].album->0.cover_dir is Some && s.album is Some,
        ImportStage::Cover(b) => b < s.batches.len() && s.cover is Some && s.album is Some,
        ImportStage::Inserting(b, j) => b < s.batches.len() && j < s.batches[b as int].order@.len(),
        ImportStage::Members(b) => b < s.batches.len() && s.collection_id is Some,
        ImportStage::Committing => true,
        ImportStage::Over => true,
    }
}

impl View for ImportRun {
    type V = Importing;

    closed spec fn view(&self) -> Importing {
        Importing {
            files: views(self.files@),
            collection: opt_view(self.collection),
            loose: self.loose,
            pretend: self.pretend,
            intake: self.intake,
            batches: self.batches@,
            collection_id: self.collection_id,
            album: self.album,
            cover: opt_view(self.cover),
            ids: self.ids@,
            stage: self.stage,
        }
    }
}

impl ImportRun {
    /// Begins the import of scanned files.
    pub fn new(
        files: &Vec<String>,
        skipped_non_utf8: u32,
        collection: &Option<String>,
        loose: bool,
        pretend: bool,
    ) -> (r: Self)
        requires
            files@.len() <= i64::MAX,
        ensures
            r@.files == views(files@),
            r@.collection == opt_view(*collection),
            r@.loose == loose,
            r@.pretend == pretend,
            r@.intake.result.imported == 0,
            r@.intake.result.skipped_duplicate == 0,
            r@.intake.result.skipped_error == 0,
            r@.intake.result.skipped_non_utf8 == skipped_non_utf8,
            r@.intake.result.added_to_collection == 0,
            r@.intake.result.albums_created == 0,
            r@.intake.result.albums_existing == 0,
            !r@.intake.result.collection_created,
            r@.intake.result.errors@.len() == 0,
            r@.intake.tracks@.len() == 0,
            r@.intake.tags@.len() == 0,
            r@.intake.duplicates@.len() == 0,
            r@.batches.len() == 0,
            r@.collection_id is None,
            r@.album is None,
            r@.cover is None,
            r@.ids.len() == 0,
            r@.stage == (if files@.len() > 0 {
                ImportStage::TakingIn(0)
            } else {
                ImportStage::Over
            }),
            stands(r@),
    {
        let n: usize = files.len();
        let stage = if n > 0 {
            ImportStage::TakingIn(0)
        } else {
            ImportStage::Over
        };
        ImportRun {
            files: copy_all(files),
            collection: copy_text(collection),
            loose,
            pretend,
            intake: Intake::new(skipped_non_utf8),
            batches: Vec::new(),
            collection_id: None,
            album: None,
            cover: None,
            ids: Vec::new(),
            stage,
        }
    }

    /// What is to be done next.
    pub fn action(&self) -> (r: ImportAction)
        requires
            stands(self@),
        ensures
            is_action(self@, r),
            r matches ImportAction::Insert { track, .. } ==> track < self@.intake.tracks@.len(),
            r matches ImportAction::MakeAlbum { batch } ==> batch < self@.batches.len()
                && self@.batches[batch as int].album is Some,
    {
        match self.stage {
            ImportStage::TakingIn(i) => ImportAction::TakeIn { file: self.files[i].clone() },
            ImportStage::Collection => match &self.collection {
                Some(name) => ImportAction::MakeCollection { name: name.clone() },
                None => ImportAction::Nothing,
            },
            ImportStage::Joining(k) => match self.collection_id {
                Some(id) => ImportAction::Join {
                    collection_id: id,
                    track_id: self.intake.duplicates[k].0,
                },
                None => ImportAction::Nothing,
            },
            ImportStage::Album(b) => ImportAction::MakeAlbum { batch: b },
            ImportStage::CoverSearch(b) => match &self.batches[b].album {
                Some(a) => match &a.cover_dir {
                    Some(dir) => ImportAction::ListFiles { dir: dir.clone() },
                    None => ImportAction::Nothing,
                },
                None => ImportAction::Nothing,
            },
            ImportStage::Cover(_) => match (&self.album, &self.cover) {
                (Some(album), Some(path)) => ImportAction::SetCover {
                    album_id: album.0,
                    path: path.clone(),
                },
                _ => ImportAction::Nothing,
            },
            ImportStage::Inserting(b, j) => ImportAction::Insert {
                track: self.batches[b].order[j],
                album_id: match &self.album {
                    Some(album) => Some(album.0),
                    None => None,
                },
            },
            ImportStage::Members(_) => match self.collection_id {
                Some(id) => {
                    let track_ids = self.ids.clone();
                    assert(track_ids@ =~= self.ids@);
                    ImportAction::AddMembers { collection_id: id, track_ids }
                },
                None => ImportAction::Nothing,
            },
            ImportStage::Committing => ImportAction::Commit,
            ImportStage::Over => ImportAction::Nothing,
        }
    }

    /// What has been taken in, for the rows to insert.
    pub fn intake(&self) -> (r: &Intake)
        ensures
            *r == self@.intake,
    {
        &self.intake
    }

    /// The batches that are inserted.
    pub fn batches(&self) -> (r: &Vec<ImportBatch>)
        ensures
            r@ == self@.batches,
    {
        &self.batches
    }

    fn begin_inserting(&mut self)
        requires
            old(self)@.files.len() <= i64::MAX,
            old(self)@.files.len() <= usize::MAX,
            old(self)@.intake.tracks@.len() <= old(self)@.files.len(),
            batches_hold(old(self)@.batches, old(self)@.intake.tracks@.len()),
        ensures
            begins_inserting(old(self)@, final(self)@),
            stands(final(self)@),
    {
        if self.intake.inserts(self.pretend) {
            self.batches = plan_import(&self.intake.tracks, &self.intake.tags, self.loose);
            proof {
                lemma_plan_holds(
                    self.batches@,
                    self.intake.tracks@,
                    self.intake.tags@,
                    self.loose,
                );
            }
            self.stage = self.stage_of(0);
            assert(self@ =~= Importing {
                batches: self@.batches,
                stage: batch_stage(self@, 0),
                ..old(self)@
            });
        } else {
            self.stage = ImportStage::Over;
            assert(self@ =~= Importing { stage: ImportStage::Over, ..old(self)@ });
        }
        assert(self.batches@.len() == self.batches.len());
    }

    fn stage_of(&self, b: usize) -> (r: ImportStage)
        ensures
            r == batch_stage(self@, b as int),
    {
        if b >= self.batches.len() {
            ImportStage::Committing
        } else if self.batches[b].album.is_some() {
            ImportStage::Album(b)
        } else {
            ImportStage::Inserting(b, 0)
        }
    }

    fn join_from(&mut self, k: usize)
        requires
            old(self)@.files.len() <= i64::MAX,
            old(self)@.files.len() <= usize::MAX,
            old(self)@.intake.tracks@.len() <= old(self)@.files.len(),
            batches_hold(old(self)@.batches, old(self)@.intake.tracks@.len()),
            old(self)@.batches.len() <= usize::MAX,
            old(self)@.collection_id is Some,
            !old(self)@.pretend,
        ensures
            joins_from(old(self)@, k as int, final(self)@),
            stands(final(self)@),
    {
        if k < self.intake.duplicates.len() {
            self.stage = ImportStage::Joining(k);
            assert(self@ =~= Importing { stage: ImportStage::Joining(k), ..old(self)@ });
        } else {
            self.begin_inserting();
        }
    }

    fn end_batch(&mut self, b: usize)
        requires
            stands(old(self)@),
            !old(self)@.pretend,
            b < old(self)@.batches.len(),
        ensures
            final(self)@ == batch_over(old(self)@, b as int),
            stands(final(self)@),
    {
        let created = match &self.album {
            Some(album) => Some(album.1),
            None => None,
        };
        let n: usize = self.ids.len();
        let count: u32 = if n > u32::MAX as usize {
            u32::MAX
        } else {
            n as u32
        };
        self.intake.batch_done(created, count);
        self.album = None;
        self.cover = None;
        self.ids = Vec::new();
        assert(self.batches@.len() == self.batches.len());
        self.stage = self.stage_of(b + 1);
        assert(self@ =~= batch_over(old(self)@, b as int));
    }

    fn insert_from(&mut self, b: usize, j: usize)
        requires
            old(self)@.files.len() <= i64::MAX,
            old(self)@.files.len() <= usize::MAX,
            old(self)@.intake.tracks@.len() <= old(self)@.files.len(),
            batches_hold(old(self)@.batches, old(self)@.intake.tracks@.len()),
            old(self)@.batches.len() <= usize::MAX,
            !old(self)@.pretend,
            b < old(self)@.batches.len(),
        ensures
            final(self)@ == inserts_from(old(self)@, b as int, j as int),
            stands(final(self)@),
    {
        if j < self.batches[b].order.len() {
            self.stage = ImportStage::Inserting(b, j);
            assert(self@ =~= inserts_from(old(self)@, b as int, j as int));
        } else if self.collection_id.is_some() {
            self.stage = ImportStage::Members(b);
            assert(self@ =~= inserts_from(old(self)@, b as int, j as int));
        } else {
            self.stage = ImportStage::Over;
            let ghost at = self@;
            self.end_batch(b);
            assert(batch_over(at, b as int) =~= batch_over(old(self)@, b as int));
        }
    }

    /// Takes what came of the action.
    pub fn step(&mut self, e: ImportEvent)
        requires
            stands(old(self)@),
        ensures
            follows(old(self)@, e, final(self)@),
            stands(final(self)@),
    {
        match (self.stage, e) {
            (ImportStage::TakingIn(i), ImportEvent::Seen { abs_path, seen }) => {
                let n: usize = self.files.len();
                let file = self.files[i].clone();
                self.intake.take_in(file.as_str(), abs_path, self.collection.is_some(), seen);
                let ghost m = self@;
                assert(m == (Importing { intake: self.intake, ..old(self)@ }));
                if i + 1 < n {
                    self.stage = ImportStage::TakingIn(i + 1);
                    assert(self@ =~= Importing {
                        stage: ImportStage::TakingIn((i + 1) as usize),
                        ..m
                    });
                } else if makes_collection(&self.collection, self.pretend) {
                    self.stage = ImportStage::Collection;
                    assert(self@ =~= Importing { stage: ImportStage::Collection, ..m });
                } else {
                    self.begin_inserting();
                }
            },
            (ImportStage::Collection, ImportEvent::Collection { id, created }) => {
                self.intake.collection_ready(created);
                self.collection_id = Some(id);
                self.join_from(0);
            },
            (ImportStage::Joining(k), ImportEvent::Joined { added }) => {
                let n: usize = self.intake.duplicates.len();
                assert(k < n);
                self.intake.joined_collection(added);
                self.join_from(k + 1);
            },
            (ImportStage::Album(b), ImportEvent::Album { id, created }) => {
                self.album = Some((id, created));
                let has_dir = match &self.batches[b].album {
                    Some(a) => a.cover_dir.is_some(),
                    None => false,
                };
                if has_dir {
                    self.stage = ImportStage::CoverSearch(b);
                } else {
                    self.insert_from(b, 0);
                }
            },
            (ImportStage::CoverSearch(b), ImportEvent::Files(files)) => {
                match detect_sibling_cover(&files) {
                    Some(path) => {
                        self.cover = Some(path);
                        self.stage = ImportStage::Cover(b);
                    },
                    None => {
                        self.insert_from(b, 0);
                    },
                }
            },
            (ImportStage::Cover(b), ImportEvent::Done) => {
                self.insert_from(b, 0);
            },
            (ImportStage::Inserting(b, j), ImportEvent::Inserted { id }) => {
                let n: usize = self.batches[b].order.len();
                assert(j < n);
                self.ids.push(id);
                self.insert_from(b, j + 1);
            },
            (ImportStage::Members(b), ImportEvent::Done) => {
                self.end_batch(b);
            },
            (ImportStage::Committing, ImportEvent::Done) => {
                self.stage = ImportStage::Over;
            },
            _ => {},
        }
    }

    /// What the import came to.
    pub fn finish(self) -> (r: ImportResult)
        ensures
            r == self@.intake.result,
    {
        self.intake.result
    }
}

/// A dry run reads files and does nothing else.
pub proof fn law_dry_runs_change_nothing(s: Importing, a: ImportAction)
    requires
        stands(s),
        s.pretend,
        is_action(s, a),
    ensures
        a is TakeIn || a is Nothing,
{
}

/// Whether an event is an answer to the action of a stage.
pub open spec fn answers(stage: ImportStage, e: ImportEvent) -> bool {
    match stage {
        ImportStage::TakingIn(_) => e is Seen,
        ImportStage::Collection => e is Collection,
        ImportStage::Joining(_) => e is Joined,
        ImportStage::Album(_) => e is Album,
        ImportStage::CoverSearch(_) => e is Files,
        ImportStage::Cover(_) => e is Done,
        ImportStage::Inserting(_, _) => e is Inserted,
        ImportStage::Members(_) => e is Done,
        ImportStage::Committing => e is Done,
        ImportStage::Over => false,
    }
}

/// The part of an import that is left: files, collection, batches, end.
pub open spec fn parts_left(s: Importing) -> int {
    match s.stage {
        ImportStage::TakingIn(_) => 4,
        ImportStage::Collection => 3,
        ImportStage::Joining(_) => 3,
        ImportStage::Committing => 1,
        ImportStage::Over => 0,
        _ => 2,
    }
}

/// The files, known tracks or batches that are left in the present part.
pub open spec fn items_left(s: Importing) -> int {
    match s.stage {
        ImportStage::TakingIn(i) => s.files.len() - i,
        ImportStage::Collection => s.intake.duplicates@.len() as int + 1,
        ImportStage::Joining(k) => s.intake.duplicates@.len() - k,
        ImportStage::Album(b) => s.batches.len() - b,
        ImportStage::CoverSearch(b) => s.batches.len() - b,
        ImportStage::Cover(b) => s.batches.len() - b,
        ImportStage::Inserting(b, _) => s.batches.len() - b,
        ImportStage::Members(b) => s.batches.len() - b,
        _ => 0,
    }
}

/// The steps that are left in the present batch, at most.
pub open spec fn steps_left(s: Importing) -> int {
    match s.stage {
        ImportStage::Album(b) => s.batches[b as int].order@.len() as int + 4,
        ImportStage::CoverSearch(b) => s.batches[b as int].order@.len() as int + 3,
        ImportStage::Cover(b) => s.batches[b as int].order@.len() as int + 2,
        ImportStage::Inserting(b, j) => s.batches[b as int].order@.len() - j + 1,
        ImportStage::Members(_) => 1,
        _ => 0,
    }
}

/// An import comes to an end: every answer leaves less of it.
pub proof fn law_imports_come_to_an_end(s: Importing, e: ImportEvent, t: Importing)
    requires
        stands(s),
        stands(t),
        answers(s.stage, e),
        follows(s, e, t),
    ensures
        parts_left(t) >= 0,
        items_left(t) >= 0,
        steps_left(t) >= 0,
        parts_left(t) < parts_left(s) || (parts_left(t) == parts_left(s) && (items_left(t)
            < items_left(s) || (items_left(t) == items_left(s) && steps_left(t) < steps_left(s)))),
{
    assert(s.intake.duplicates@.len() == s.intake.duplicates.len());
    if s.stage is Inserting {
        let b = s.stage->Inserting_0 as int;
        assert(s.batches[b].order@.len() == s.batches[b].order.len());
    }
}

// ---------------------------------------------------------------------------
// Whole imports

/// An import before anything was done.
pub open spec fn begins(s: Importing) -> bool {
    &&& s.intake.result.imported == 0
    &&& s.intake.result.skipped_duplicate == 0
    &&& s.intake.result.albums_created == 0
    &&& s.intake.result.albums_existing == 0
    &&& s.intake.tracks@.len() == 0
    &&& s.batches.len() == 0
    &&& s.ids.len() == 0
    &&& s.stage == (if s.files.len() > 0 { ImportStage::TakingIn(0) } else { ImportStage::Over })
}

/// Whether the events `es` took an import from its beginning to its end
/// through the states `ss`.
pub open spec fn ran(ss: Seq<Importing>, es: Seq<ImportEvent>) -> bool {
    &&& ss.len() == es.len() + 1
    &&& begins(ss[0])
    &&& ss.last().stage == ImportStage::Over
    &&& forall|i: int| 0 <= i < ss.len() ==> stands(#[trigger] ss[i])
    &&& forall|i: int|
        0 <= i < es.len() ==> answers(ss[i].stage, es[i]) && follows(
            ss[i],
            #[trigger] es[i],
            ss[i + 1],
        )
}

/// Whether an event says that the library has a file already.
pub open spec fn is_known(e: ImportEvent) -> bool {
    e is Seen && e->seen is Known
}

/// Whether an event brings a file that was read.
pub open spec fn is_read(e: ImportEvent) -> bool {
    e is Seen && e->seen is Read
}

/// How many of the first `n` events say that the library has a file.
pub open spec fn known_of(es: Seq<ImportEvent>, n: int) -> nat
    decreases n,
{
    if n <= 0 { 0 } else { known_of(es, n - 1) + if is_known(es[n - 1]) { 1nat } else { 0nat } }
}

/// How many of the first `n` events bring a file that was read.
pub open spec fn read_of(es: Seq<ImportEvent>, n: int) -> nat
    decreases n,
{
    if n <= 0 { 0 } else { read_of(es, n - 1) + if is_read(es[n - 1]) { 1nat } else { 0nat } }
}

/// Whether an import is at a stage that adds tracks or albums.
pub open spec fn is_inserting(s: Importing) -> bool {
    !(s.stage is TakingIn || s.stage is Collection || s.stage is Joining || s.stage is Over)
}

/// What an import has counted after `known` known files and `read` files that
/// were read.
spec fn counted(s: Importing, known: nat, read: nat) -> bool {
    let r = s.intake.result;
    &&& r.skipped_duplicate == capped(known)
    &&& s.intake.tracks@.len() == read
    &&& read == 0 ==> r.albums_created == 0 && r.albums_existing == 0
    &&& is_inserting(s) ==> read > 0 && !s.pretend && is_import_plan(
        s.batches,
        s.intake.tracks@,
        s.intake.tags@,
        s.loose,
    )
    &&& match s.stage {
        ImportStage::Album(b) => r.imported == capped(batch_total(s.batches, b as int))
            && s.ids.len() == 0,
        ImportStage::CoverSearch(b) => r.imported == capped(batch_total(s.batches, b as int))
            && s.ids.len() == 0,
        ImportStage::Cover(b) => r.imported == capped(batch_total(s.batches, b as int))
            && s.ids.len() == 0,
        ImportStage::Inserting(b, j) => r.imported == capped(batch_total(s.batches, b as int))
            && s.ids.len() == j,
        ImportStage::Members(b) => r.imported == capped(batch_total(s.batches, b as int))
            && s.ids.len() == s.batches[b as int].order@.len(),
        ImportStage::Committing => r.imported == capped(read),
        ImportStage::Over => r.imported == (if s.pretend { 0 } else { capped(read) }),
        _ => r.imported == 0 && s.ids.len() == 0,
    }
}

proof fn lemma_batch_stage(s: Importing, b: int, known: nat, read: nat)
    requires
        0 <= b <= s.batches.len() <= usize::MAX,
        s.intake.result.skipped_duplicate == capped(known),
        s.intake.tracks@.len() == read,
        read > 0,
        !s.pretend,
        is_import_plan(s.batches, s.intake.tracks@, s.intake.tags@, s.loose),
        s.intake.result.imported == capped(batch_total(s.batches, b)),
        s.ids.len() == 0,
    ensures
        counted((Importing { stage: batch_stage(s, b), ..s }), known, read),
{
    lemma_plan_total(s.batches, s.intake.tracks@, s.intake.tags@, s.loose);
}

proof fn lemma_batch_over(s: Importing, b: int, known: nat, read: nat)
    requires
        0 <= b < s.batches.len() <= usize::MAX,
        s.intake.result.skipped_duplicate == capped(known),
        s.intake.tracks@.len() == read,
        read > 0,
        !s.pretend,
        is_import_plan(s.batches, s.intake.tracks@, s.intake.tags@, s.loose),
        s.intake.result.imported == capped(batch_total(s.batches, b)),
        s.ids.len() == s.batches[b].order@.len(),
    ensures
        counted(batch_over(s, b), known, read),
{
    let t = batch_over(s, b);
    assert(batch_total(s.batches, b + 1) == batch_total(s.batches, b) + s.ids.len());
    assert(t.intake.result.imported == capped(batch_total(s.batches, b + 1)));
    assert(t == (Importing { stage: batch_stage(t, b + 1), ..t }));
    lemma_batch_stage(t, b + 1, known, read);
}

proof fn lemma_taking_in_counted(s: Importing, e: ImportEvent, t: Importing, known: nat, read: nat)
    requires
        stands(t),
        s.stage is TakingIn,
        e is Seen,
        follows(s, e, t),
        counted(s, known, read),
    ensures
        counted(
            t,
            known + if is_known(e) { 1nat } else { 0nat },
            read + if is_read(e) { 1nat } else { 0nat },
        ),
{
    let i = s.stage->TakingIn_0;
    let k2 = known + if is_known(e) { 1nat } else { 0nat };
    let r2 = read + if is_read(e) { 1nat } else { 0nat };
    let m = Importing { intake: t.intake, ..s };
    assert(took_in(
        s.intake,
        s.files[i as int],
        e->abs_path,
        s.collection is Some,
        e->seen,
        t.intake,
    ));
    assert(t.intake.tracks@.len() == r2);
    assert(t.intake.result.skipped_duplicate == capped(k2));
    assert(t.intake.result.imported == 0);
    assert(r2 == 0 ==> t.intake.result.albums_created == 0 && t.intake.result.albums_existing == 0);
    if i + 1 < s.files.len() {
        assert(t.stage is TakingIn);
    } else if s.collection is Some && !s.pretend {
        assert(t.stage is Collection);
    } else {
        lemma_inserting_begins(m, t, k2, r2);
    }
}

proof fn lemma_inserted_counted(s: Importing, e: ImportEvent, t: Importing, known: nat, read: nat)
    requires
        stands(s),
        s.stage is Inserting,
        e is Inserted,
        follows(s, e, t),
        counted(s, known, read),
    ensures
        counted(t, known, read),
{
    let b = s.stage->Inserting_0;
    let j = s.stage->Inserting_1;
    let m = Importing { ids: s.ids.push(e->Inserted_id), ..s };
    assert(s.batches[b as int].order@.len() == s.batches[b as int].order.len());
    if j + 1 >= s.batches[b as int].order@.len() && s.collection_id is None {
        lemma_batch_over(m, b as int, known, read);
    }
}

proof fn lemma_counted(s: Importing, e: ImportEvent, t: Importing, known: nat, read: nat)
    requires
        stands(s),
        stands(t),
        answers(s.stage, e),
        follows(s, e, t),
        counted(s, known, read),
    ensures
        counted(
            t,
            known + if is_known(e) { 1nat } else { 0nat },
            read + if is_read(e) { 1nat } else { 0nat },
        ),
{
    match s.stage {
        ImportStage::TakingIn(_) => {
            lemma_taking_in_counted(s, e, t, known, read);
        },
        ImportStage::Collection => {
            let m = Importing {
                collection_id: Some(e->Collection_id),
                intake: with_result(
                    s.intake,
                    ImportResult { collection_created: e->Collection_created, ..s.intake.result },
                ),
                ..s
            };
            if 0 >= m.intake.duplicates@.len() {
                lemma_inserting_begins(m, t, known, read);
            }
            assert(counted(t, known, read));
        },
        ImportStage::Joining(k) => {
            let m = Importing {
                intake: with_result(s.intake, joined_result(s.intake.result, e->added)),
                ..s
            };
            if k + 1 >= m.intake.duplicates@.len() {
                lemma_inserting_begins(m, t, known, read);
            }
            assert(counted(t, known, read));
        },
        ImportStage::Inserting(_, _) => {
            lemma_inserted_counted(s, e, t, known, read);
        },
        ImportStage::Members(b) => {
            lemma_batch_over(s, b as int, known, read);
        },
        ImportStage::Album(b) => {
            assert(s.batches[b as int].order@.len() > 0);
            assert(counted(t, known, read));
        },
        ImportStage::CoverSearch(b) => {
            assert(s.batches[b as int].order@.len() > 0);
            assert(counted(t, known, read));
        },
        ImportStage::Cover(b) => {
            assert(s.batches[b as int].order@.len() > 0);
            assert(counted(t, known, read));
        },
        _ => {
            assert(counted(t, known, read));
        },
    }
}

proof fn lemma_inserting_begins(m: Importing, t: Importing, known: nat, read: nat)
    requires
        begins_inserting(m, t),
        stands(t),
        m.intake.result.skipped_duplicate == capped(known),
        m.intake.tracks@.len() == read,
        read == 0 ==> m.intake.result.albums_created == 0 && m.intake.result.albums_existing == 0,
        m.intake.result.imported == 0,
        m.ids.len() == 0,
    ensures
        counted(t, known, read),
{
    if !m.pretend && read > 0 {
        assert(t == (Importing { stage: batch_stage(t, 0), ..t }));
        lemma_batch_stage(t, 0, known, read);
    }
}

proof fn lemma_run_counted(ss: Seq<Importing>, es: Seq<ImportEvent>, n: int)
    requires
        ran(ss, es),
        0 <= n < ss.len(),
    ensures
        counted(ss[n], known_of(es, n), read_of(es, n)),
        ss[n].pretend == ss[0].pretend,
        ss[n].files == ss[0].files,
        n < ss[0].files.len() ==> ss[n].stage == ImportStage::TakingIn(n as usize),
        n >= ss[0].files.len() ==> !(ss[n].stage is TakingIn),
    decreases n,
{
    if n > 0 {
        lemma_run_counted(ss, es, n - 1);
        let (s, e, t) = (ss[n - 1], es[n - 1], ss[n]);
        assert(stands(s) && stands(t));
        assert(answers(s.stage, e) && follows(s, e, t));
        lemma_counted(s, e, t, known_of(es, n - 1), read_of(es, n - 1));
    }
}

/// An import of files that the library has, or that cannot be read, adds
/// neither tracks nor albums at any point, and counts every file that the
/// library has as a duplicate.
pub proof fn law_known_files_are_not_imported_again(ss: Seq<Importing>, es: Seq<ImportEvent>)
    requires
        ran(ss, es),
        forall|i: int| 0 <= i < es.len() ==> !is_read(#[trigger] es[i]),
    ensures
        forall|i: int| 0 <= i < ss.len() ==> !is_inserting(#[trigger] ss[i]),
        ss.last().intake.result.imported == 0,
        ss.last().intake.result.albums_created == 0,
        ss.last().intake.result.albums_existing == 0,
        ss.last().intake.result.skipped_duplicate == capped(known_of(es, es.len() as int)),
{
    assert forall|i: int| 0 <= i < ss.len() implies !is_inserting(#[trigger] ss[i]) by {
        lemma_run_counted(ss, es, i);
        lemma_none_read(es, i);
    }
    lemma_run_counted(ss, es, es.len() as int);
    lemma_none_read(es, es.len() as int);
}

proof fn lemma_none_read(es: Seq<ImportEvent>, n: int)
    requires
        0 <= n <= es.len(),
        forall|i: int| 0 <= i < n ==> !is_read(#[trigger] es[i]),
    ensures
        read_of(es, n) == 0,
    decreases n,
{
    if n > 0 {
        lemma_none_read(es, n - 1);
    }
}

/// Whether a file that was looked at by an import is found so by the next:
/// the library has it now, unless it could not be read and still cannot be.
pub open spec fn found_again(first: ImportEvent, second: ImportEvent) -> bool {
    match (first, second) {
        (
            ImportEvent::Seen { abs_path: _, seen: a },
            ImportEvent::Seen { abs_path: _, seen: b },
        ) => if a is Unreadable { b is Unreadable } else { b is Known },
        _ => false,
    }
}

proof fn lemma_found_again(es1: Seq<ImportEvent>, es2: Seq<ImportEvent>, n: int)
    requires
        0 <= n <= es1.len(),
        n <= es2.len(),
        forall|i: int| 0 <= i < n ==> found_again(#[trigger] es1[i], es2[i]),
    ensures
        known_of(es2, n) == known_of(es1, n) + read_of(es1, n),
        read_of(es2, n) == 0,
    decreases n,
{
    if n > 0 {
        lemma_found_again(es1, es2, n - 1);
        assert(found_again(es1[n - 1], es2[n - 1]));
    }
}

proof fn lemma_files_come_first(ss: Seq<Importing>, es: Seq<ImportEvent>, n: int)
    requires
        ran(ss, es),
        ss[0].files.len() <= n <= es.len(),
    ensures
        known_of(es, n) == known_of(es, ss[0].files.len() as int),
        read_of(es, n) == read_of(es, ss[0].files.len() as int),
    decreases n,
{
    if n > ss[0].files.len() {
        lemma_files_come_first(ss, es, n - 1);
        lemma_run_counted(ss, es, n - 1);
        assert(answers(ss[n - 1].stage, es[n - 1]));
    }
}

/// Importing unchanged files a second time adds nothing. Where an import came
/// to its end and the next finds what it took in, the next has no new track
/// and no new album, adds none at any point, and counts as duplicates what
/// the first imported and what the first had counted as such.
pub proof fn law_a_second_import_adds_nothing(
    ss1: Seq<Importing>,
    es1: Seq<ImportEvent>,
    ss2: Seq<Importing>,
    es2: Seq<ImportEvent>,
)
    requires
        ran(ss1, es1),
        ran(ss2, es2),
        !ss1[0].pretend,
        ss1[0].files == ss2[0].files,
        forall|i: int| 0 <= i < ss1[0].files.len() ==> found_again(#[trigger] es1[i], es2[i]),
    ensures
        ({
            let r1 = ss1.last().intake.result;
            let r2 = ss2.last().intake.result;
            &&& r2.imported == 0
            &&& r2.albums_created == 0
            &&& r2.skipped_duplicate == capped(r1.imported as nat + r1.skipped_duplicate as nat)
            &&& forall|i: int| 0 <= i < ss2.len() ==> !is_inserting(#[trigger] ss2[i])
        }),
{
    let n = ss1[0].files.len() as int;
    let (m1, m2) = (es1.len() as int, es2.len() as int);
    lemma_run_counted(ss1, es1, m1);
    lemma_run_counted(ss2, es2, m2);
    assert(ss1[m1] == ss1.last() && ss2[m2] == ss2.last());
    lemma_found_again(es1, es2, n);
    lemma_files_come_first(ss1, es1, m1);
    lemma_files_come_first(ss2, es2, m2);
    assert forall|i: int| 0 <= i < es2.len() implies !is_read(#[trigger] es2[i]) by {
        if i < n {
            assert(found_again(es1[i], es2[i]));
        } else {
            lemma_run_counted(ss2, es2, i);
            assert(answers(ss2[i].stage, es2[i]));
        }
    }
    law_known_files_are_not_imported_again(ss2, es2);
}


/// Batches are imported one after the other, each track by track in its
/// order; an album is made before its tracks, its cover is looked for where
/// it has a directory, and the members of a collection come after them.
pub proof fn law_batches_are_imported_in_order(
    s: Importing,
    t: Importing,
    b: usize,
    j: usize,
    id: i64,
)
    ensures
        s.stage == ImportStage::Inserting(b, j) && j + 1 < s.batches[b as int].order@.len()
            && follows(s, ImportEvent::Inserted { id }, t) ==> t.stage == ImportStage::Inserting(
            b,
            (j + 1) as usize,
        ) && t.ids == s.ids.push(id),
        s.stage == ImportStage::Inserting(b, j) && j + 1 >= s.batches[b as int].order@.len()
            && s.collection_id is Some && follows(s, ImportEvent::Inserted { id }, t) ==> t.stage
            == ImportStage::Members(b) && t.ids == s.ids.push(id),
        s.stage == ImportStage::Members(b) && b + 1 >= s.batches.len() && follows(
            s,
            ImportEvent::Done,
            t,
        ) ==> t.stage == ImportStage::Committing,
        s.stage == ImportStage::Members(b) && b + 1 < s.batches.len() && s.batches[b
            + 1].album is Some && follows(s, ImportEvent::Done, t) ==> t.stage == ImportStage::Album(
            (b + 1) as usize,
        ) && t.ids.len() == 0 && t.album is None,
        s.stage == ImportStage::Members(b) && b + 1 < s.batches.len() && s.batches[b
            + 1].album is None && follows(s, ImportEvent::Done, t) ==> t.stage
            == ImportStage::Inserting((b + 1) as usize, 0) && t.ids.len() == 0 && t.album is None,
        s.stage == ImportStage::Album(b) && s.batches[b as int].album->0.cover_dir is Some
            && follows(s, ImportEvent::Album { id, created: true }, t) ==> t.stage
            == ImportStage::CoverSearch(b) && t.album == Some((id, true)),
{
}

/// Every file is looked at, in the order of the scan.
pub proof fn law_files_are_taken_in_one_by_one(
    s: Importing,
    t: Importing,
    i: usize,
    e: ImportEvent,
)
    requires
        s.stage == ImportStage::TakingIn(i),
        e is Seen,
        follows(s, e, t),
    ensures
        i + 1 < s.files.len() ==> t.stage == ImportStage::TakingIn((i + 1) as usize),
        i + 1 >= s.files.len() && s.collection is Some && !s.pretend ==> t.stage
            == ImportStage::Collection,
        i + 1 >= s.files.len() && s.pretend ==> t.stage == ImportStage::Over,
{
}

} // verus!
