//! Writing tags without risking the file: a copy is changed and saved, and
//! only then takes the file's place. Files are touched elsewhere; here stands
//! what is done when, and what comes of it.
use vstd::prelude::*;

use crate::error::KyokuError;
use crate::tagger::{tmp_path, tmp_path_for, TagChanges, TagWriteReport};

verus! {

/// How far a write has come.
#[derive(Debug, Clone, Copy, PartialEq, Eq, Structural)]
pub enum WriteStage {
    /// Copying the file.
    Copying,
    /// Changing and saving the copy.
    Saving,
    /// Putting the copy in the place of the file.
    Replacing,
    /// Removing a copy that did not come to take the file's place.
    Discarding,
    Over,
}

/// What is to be done.
#[derive(Debug)]
pub enum WriteAction {
    Copy { from: String, to: String },
    /// Change the tag of a copy and save it.
    Save { path: String },
    Rename { from: String, to: String },
    Remove { path: String },
    Nothing,
}

/// What came of it.
#[derive(Debug)]
pub enum WriteEvent {
    Done,
    /// The copy was changed and saved.
    Saved(TagWriteReport),
    Failed(KyokuError),
}

/// A write of tags.
#[derive(Debug)]
pub struct TagWrite {
    path: String,
    tmp: String,
    stage: WriteStage,
    result: Result<TagWriteReport, KyokuError>,
}

/// What a write is about, and how far it has come.
pub struct Writing {
    pub path: Seq<char>,
    pub stage: WriteStage,
    /// What comes of it, as far as it has come.
    pub result: Result<TagWriteReport, KyokuError>,
}

/// What follows an event. One that does not suit the stage changes nothing.
pub open spec fn after_event(w: Writing, e: WriteEvent) -> Writing {
    match (w.stage, e) {
        (WriteStage::Copying, WriteEvent::Done) => Writing { stage: WriteStage::Saving, ..w },
        (WriteStage::Copying, WriteEvent::Failed(why)) => Writing {
            stage: WriteStage::Over,
            result: Err(why),
            ..w
        },
        (WriteStage::Saving, WriteEvent::Saved(report)) => Writing {
            stage: WriteStage::Replacing,
            result: Ok(report),
            ..w
        },
        (WriteStage::Saving, WriteEvent::Failed(why)) => Writing {
            stage: WriteStage::Discarding,
            result: Err(why),
            ..w
        },
        (WriteStage::Replacing, WriteEvent::Done) => Writing { stage: WriteStage::Over, ..w },
        (WriteStage::Replacing, WriteEvent::Failed(why)) => Writing {
            stage: WriteStage::Discarding,
            result: Err(why),
            ..w
        },
        (WriteStage::Discarding, _) => Writing { stage: WriteStage::Over, ..w },
        _ => w,
    }
}

/// Whether an action is the one of a stage.
pub open spec fn is_action(w: Writing, a: WriteAction) -> bool {
    match w.stage {
        WriteStage::Copying => a is Copy && a->Copy_from@ == w.path && a->Copy_to@ == tmp_path(
            w.path,
        ),
        WriteStage::Saving => a is Save && a->Save_path@ == tmp_path(w.path),
        WriteStage::Replacing => a is Rename && a->Rename_from@ == tmp_path(w.path)
            && a->Rename_to@ == w.path,
        WriteStage::Discarding => a is Remove && a->Remove_path@ == tmp_path(w.path),
        WriteStage::Over => a is Nothing,
    }
}

impl View for TagWrite {
    type V = Writing;

    closed spec fn view(&self) -> Writing {
        Writing { path: self.path@, stage: self.stage, result: self.result }
    }
}

impl TagWrite {
    /// The copy is the one beside the file.
    pub closed spec fn wf(self) -> bool {
        self.tmp@ == tmp_path(self.path@)
    }

    /// Begins to write changes to a file. Without changes there is nothing
    /// to do.
    pub fn new(path: &str, changes: &TagChanges) -> (r: Self)
        ensures
            r.wf(),
            r@.path == path@,
            r@.result == Ok::<TagWriteReport, KyokuError>(
                TagWriteReport { fields_written: 0, fields_removed: 0 },
            ),
            r@.stage == (if changes.set@.len() == 0 && changes.unset@.len() == 0 {
                WriteStage::Over
            } else {
                WriteStage::Copying
            }),
    {
        TagWrite {
            path: path.to_owned(),
            tmp: tmp_path_for(path),
            stage: if changes.is_empty() {
                WriteStage::Over
            } else {
                WriteStage::Copying
            },
            result: Ok(TagWriteReport { fields_written: 0, fields_removed: 0 }),
        }
    }

    /// What is to be done next.
    pub fn action(&self) -> (r: WriteAction)
        requires
            self.wf(),
        ensures
            is_action(self@, r),
    {
        match self.stage {
            WriteStage::Copying => WriteAction::Copy {
                from: self.path.clone(),
                to: self.tmp.clone(),
            },
            WriteStage::Saving => WriteAction::Save { path: self.tmp.clone() },
            WriteStage::Replacing => WriteAction::Rename {
                from: self.tmp.clone(),
                to: self.path.clone(),
            },
            WriteStage::Discarding => WriteAction::Remove { path: self.tmp.clone() },
            WriteStage::Over => WriteAction::Nothing,
        }
    }

    /// Takes what came of the action.
    pub fn step(&mut self, e: WriteEvent)
        requires
            old(self).wf(),
        ensures
            final(self).wf(),
            final(self)@ == after_event(old(self)@, e),
    {
        match (self.stage, e) {
            (WriteStage::Copying, WriteEvent::Done) => {
                self.stage = WriteStage::Saving;
            },
            (WriteStage::Copying, WriteEvent::Failed(why)) => {
                self.stage = WriteStage::Over;
                self.result = Err(why);
            },
            (WriteStage::Saving, WriteEvent::Saved(report)) => {
                self.stage = WriteStage::Replacing;
                self.result = Ok(report);
            },
            (WriteStage::Saving, WriteEvent::Failed(why)) => {
                self.stage = WriteStage::Discarding;
                self.result = Err(why);
            },
            (WriteStage::Replacing, WriteEvent::Done) => {
                self.stage = WriteStage::Over;
            },
            (WriteStage::Replacing, WriteEvent::Failed(why)) => {
                self.stage = WriteStage::Discarding;
                self.result = Err(why);
            },
            (WriteStage::Discarding, _) => {
                self.stage = WriteStage::Over;
            },
            _ => {},
        }
    }

    /// What came of the write.
    pub fn finish(self) -> (r: Result<TagWriteReport, KyokuError>)
        ensures
            r == self@.result,
    {
        self.result
    }
}

/// The file itself is written only by a copy that was saved: nothing but the
/// replacement names the file as a destination, and only a saved copy leads
/// to it.
pub proof fn law_only_a_saved_copy_replaces_the_file(w: Writing, e: WriteEvent)
    ensures
        after_event(w, e).stage == WriteStage::Replacing && w.stage != WriteStage::Replacing
            ==> w.stage == WriteStage::Saving && e is Saved,
        forall|a: WriteAction| #[trigger] is_action(w, a) && a is Rename ==> w.stage
            == WriteStage::Replacing,
{
}

/// A write that fails after the copy was made removes the copy, and reports
/// the failure.
pub proof fn law_a_failed_write_leaves_no_copy(w: Writing, e: WriteEvent)
    requires
        w.stage == WriteStage::Saving || w.stage == WriteStage::Replacing,
        e is Failed,
    ensures
        after_event(w, e).stage == WriteStage::Discarding,
        after_event(w, e).result == Err::<TagWriteReport, KyokuError>(e->Failed_0),
        forall|f: WriteEvent|
            (#[trigger] after_event(after_event(w, e), f)).stage == WriteStage::Over && after_event(
                after_event(w, e),
                f,
            ).result == after_event(w, e).result,
{
}

} // verus!
