use kyoku::organize_apply::{Action, Apply, Event, OrganizeResult};
use kyoku::organize_probes::foreseen_paths;
use kyoku::organizer::{
    plan_organize, FileMove, FileOrphanEntry, OrganizePlan, PlanOutcome, Probe,
};
use kyoku::queries::append_members;
use kyoku::rows::{OrganizeCollectionMembership, OrganizeTrackRow, OrphanFileRow};
use kyoku::settings::{LibrarySettings, OrganizeOperation};
use kyoku::sweep::Sweep;
use std::collections::{BTreeMap, BTreeSet};

const SRC: &str = "/w/inbox";
const MUSIC: &str = "/w/music";

/// A disk and a library, in memory.
struct World {
    files: BTreeSet<String>,
    dirs: BTreeSet<String>,
    tracks: Vec<OrganizeTrackRow>,
    albums: Vec<(String, String)>,
    collections: Vec<(String, Vec<(i64, u32)>)>,
    orphans: Vec<OrphanFileRow>,
}

fn src(p: &str) -> String {
    format!("{SRC}/{p}")
}

fn music(p: &str) -> String {
    format!("{MUSIC}/{p}")
}

impl World {
    fn fresh() -> Self {
        World {
            files: BTreeSet::new(),
            dirs: BTreeSet::from([SRC.to_string(), MUSIC.to_string()]),
            tracks: vec![],
            albums: vec![],
            collections: vec![],
            orphans: vec![],
        }
    }

    fn touch(&mut self, path: &str) {
        let mut dir = path;
        while let Some(at) = dir.rfind('/') {
            dir = &dir[..at];
            if !dir.is_empty() {
                self.dirs.insert(dir.to_string());
            }
        }
        self.files.insert(path.to_string());
    }

    fn on_disk(&self, path: &str) -> bool {
        self.files.contains(path) || self.dirs.contains(path)
    }

    fn add_row(&mut self, path: String, artist: &str, title: &str, track: u32) -> &mut OrganizeTrackRow {
        self.touch(&path);
        let id = self.tracks.len() as i64 + 1;
        self.tracks.push(OrganizeTrackRow {
            id,
            title: title.to_string(),
            artist: Some(artist.to_string()),
            track_number: Some(track),
            disc_number: 1,
            file_path: path,
            album_id: None,
            album_title: None,
            album_artist: None,
            year: None,
            genre: None,
            label: None,
            disc_total: None,
            collections: vec![],
        });
        self.tracks.last_mut().unwrap()
    }

    fn add_album_track(
        &mut self,
        path: String,
        artist: &str,
        album: &str,
        track: u32,
        title: &str,
        year: Option<i32>,
    ) -> i64 {
        let key = (artist.to_string(), album.to_string());
        let at = match self.albums.iter().position(|a| *a == key) {
            Some(at) => at,
            None => {
                self.albums.push(key);
                self.albums.len() - 1
            }
        };
        let row = self.add_row(path, artist, title, track);
        row.album_id = Some(at as i64 + 1);
        row.album_title = Some(album.to_string());
        row.album_artist = Some(artist.to_string());
        row.year = year;
        row.id
    }

    fn add_loose_track(&mut self, path: String, artist: &str, title: &str) -> i64 {
        self.add_row(path, artist, title, 1).id
    }

    fn add_to_collection(&mut self, name: &str, ids: &[i64]) -> i64 {
        let at = match self.collections.iter().position(|c| c.0 == name) {
            Some(at) => at,
            None => {
                self.collections.push((name.to_string(), vec![]));
                self.collections.len() - 1
            }
        };
        let members: Vec<i64> = self.collections[at].1.iter().map(|m| m.0).collect();
        let last = self.collections[at].1.iter().map(|m| m.1).max();
        let added = append_members(&members, last, members.len() as u32, &ids.to_vec()).unwrap();
        for (id, position) in added {
            self.collections[at].1.push((id, position));
            let row = self.tracks.iter_mut().find(|t| t.id == id).unwrap();
            row.collections.push(OrganizeCollectionMembership {
                id: at as i64 + 1,
                name: name.to_string(),
                path_template: None,
                effective_position: position,
                collection_file_path: None,
            });
        }
        at as i64 + 1
    }

    fn add_orphan(&mut self, path: &str, title: Option<&str>, reason: &str) {
        let id = self.orphans.len() as i64 + 1;
        self.orphans.push(OrphanFileRow {
            id,
            file_path: path.to_string(),
            title: title.map(String::from),
            artist: title.map(|_| "Artist".to_string()),
            album_title: title.map(|_| "Album".to_string()),
            reason: reason.to_string(),
        });
    }

    fn plan_with(&self, covers: &Vec<(i64, String)>) -> OrganizePlan {
        let lib = LibrarySettings::with_dirs(MUSIC.to_string(), "/w/data".to_string());
        let all_paths: Vec<String> = self.tracks.iter().map(|t| t.file_path.clone()).collect();
        let mut copies = Vec::new();
        for t in &self.tracks {
            for c in &t.collections {
                if let Some(p) = &c.collection_file_path {
                    copies.push((t.id, c.id, p.clone()));
                }
            }
        }
        let mut disk: Vec<Probe> = Vec::new();
        loop {
            match plan_organize(&lib, &None, &self.tracks, &all_paths, &copies, &self.orphans, covers, &disk) {
                PlanOutcome::Plan(p) => return p,
                PlanOutcome::Ask(path) => {
                    assert!(disk.iter().all(|p| p.path != path), "{path} was asked for twice");
                    let exists = self.on_disk(&path);
                    let resolved = if exists { Some(path.clone()) } else { None };
                    disk.push(Probe { path, exists, resolved });
                }
                PlanOutcome::Unavailable(m) => panic!("{m}"),
            }
        }
    }

    fn plan(&self) -> OrganizePlan {
        self.plan_with(&vec![])
    }

    fn sweep(&mut self, mut sweep: Sweep) -> u32 {
        while let Some(dir) = sweep.pending() {
            let below = format!("{dir}/");
            let used = self.files.iter().chain(self.dirs.iter()).any(|p| p.starts_with(&below));
            let removed = !used && self.dirs.remove(&dir);
            sweep.report(removed);
        }
        sweep.cleaned()
    }

    fn apply(&mut self, plan: &OrganizePlan, op: OrganizeOperation, roots: &[&str]) -> OrganizeResult {
        let mut run = Apply::new(plan, false);
        loop {
            let event = match run.action(plan, op) {
                Action::Check { path, second } => Event::Checked {
                    exists: self.on_disk(&path),
                    resolved: Some(path.clone()).filter(|p| self.on_disk(p)),
                    second_resolved: second.filter(|p| self.on_disk(p)),
                },
                Action::Transfer { from, to, copy } => {
                    if !self.files.contains(&from) {
                        Event::Failed("no such file".to_string())
                    } else {
                        self.touch(&to);
                        if !copy {
                            self.files.remove(&from);
                        }
                        Event::Done
                    }
                }
                Action::SetTrackPath { track_id, path } => {
                    self.tracks.iter_mut().find(|t| t.id == track_id).unwrap().file_path = path;
                    Event::Done
                }
                Action::SetCollectionPath { collection_id, track_id, path } => {
                    let row = self.tracks.iter_mut().find(|t| t.id == track_id).unwrap();
                    let c = row.collections.iter_mut().find(|c| c.id == collection_id).unwrap();
                    c.collection_file_path = Some(path);
                    Event::Done
                }
                Action::SetAlbumCover { .. } => Event::Done,
                Action::DeleteTrack { track_id } => {
                    self.tracks.retain(|t| t.id != track_id);
                    Event::Done
                }
                Action::Unlink { path } => {
                    if self.files.remove(&path) {
                        Event::Done
                    } else {
                        Event::NotFound
                    }
                }
                Action::DeleteOrphan { id } => {
                    self.orphans.retain(|o| o.id != id);
                    Event::Done
                }
                Action::Finish => break,
            };
            run.step(plan, op, &event);
        }
        let roots: Vec<String> = roots.iter().map(|r| r.to_string()).collect();
        let cleaned = self.sweep(run.sweep(&roots));
        run.finish(plan, cleaned)
    }

    fn organize(&mut self) -> OrganizeResult {
        let plan = self.plan();
        self.apply(&plan, OrganizeOperation::Move, &[MUSIC, SRC])
    }
}

fn one_song(title: &str, track: u32) -> (World, i64) {
    let mut w = World::fresh();
    let id = w.add_album_track(src("song.mp3"), "Artist", "Album", track, title, Some(2024));
    (w, id)
}

#[test]
fn plan_album_track_uses_single_disc_template_when_disc_total_is_1() {
    let (w, _) = one_song("Song", 3);
    let plan = w.plan();
    assert_eq!(plan.moves.len(), 1);
    assert_eq!(plan.moves[0].to, music("Artist/Album (2024)/03 Song.mp3"));
}

#[test]
fn plan_album_track_uses_multi_disc_template_when_disc_total_gt_1() {
    let (mut w, _) = one_song("Song", 3);
    w.tracks[0].disc_total = Some(2);
    let plan = w.plan();
    assert_eq!(plan.moves.len(), 1);
    assert_eq!(plan.moves[0].to, music("Artist/Album (2024)/1-03 Song.mp3"));
}

#[test]
fn plan_album_track_in_one_collection_emits_one_copy() {
    let (mut w, tid) = one_song("Song", 1);
    w.add_to_collection("Mix", &[tid]);
    let plan = w.plan();
    assert_eq!(plan.moves.len(), 1, "album track should be moved");
    assert_eq!(plan.copies.len(), 1, "one collection copy expected");
    assert_eq!(plan.copies[0].collection_name, "Mix");
    assert!(
        plan.copies[0].to.starts_with(&music("Collections/Mix/")),
        "copy target should land under Collections/Mix/, got {:?}",
        plan.copies[0].to
    );
}

#[test]
fn plan_collection_copy_uses_collection_position_not_track_number() {
    let mut w = World::fresh();
    let late = w.add_album_track(src("late.mp3"), "Artist", "Album", 7, "Late", Some(2024));
    let early = w.add_album_track(src("early.mp3"), "Artist", "Album", 2, "Early", Some(2024));
    w.add_to_collection("Mix", &[late, early]);
    let plan = w.plan();
    let targets: Vec<&str> = plan.copies.iter().map(|c| c.to.as_str()).collect();
    assert!(
        targets.contains(&music("Collections/Mix/01 Artist - Late.mp3").as_str()),
        "collection templates should use collection position; got {targets:?}"
    );
    assert!(targets.contains(&music("Collections/Mix/02 Artist - Early.mp3").as_str()));
}

#[test]
fn plan_album_track_in_two_collections_emits_two_copies() {
    let (mut w, tid) = one_song("Song", 1);
    w.add_to_collection("Mix", &[tid]);
    w.add_to_collection("Workout", &[tid]);
    let plan = w.plan();
    assert_eq!(plan.moves.len(), 1);
    assert_eq!(plan.copies.len(), 2);
    let mut names: Vec<&str> = plan.copies.iter().map(|c| c.collection_name.as_str()).collect();
    names.sort();
    assert_eq!(names, vec!["Mix", "Workout"]);
}

#[test]
fn plan_loose_track_no_collection_moves_to_underscore_loose() {
    let mut w = World::fresh();
    w.add_loose_track(src("stray.mp3"), "Artist", "Stray");
    let plan = w.plan();
    assert_eq!(plan.moves.len(), 1);
    assert!(plan.copies.is_empty());
    assert_eq!(plan.moves[0].to, music("_loose/Artist - Stray.mp3"));
    assert!(plan.moves[0].also_collection.is_none());
}

#[test]
fn plan_loose_track_in_one_collection_moves_to_collection_folder() {
    let mut w = World::fresh();
    let tid = w.add_loose_track(src("song.mp3"), "Artist", "Song");
    let coll = w.add_to_collection("Mix", &[tid]);
    let plan = w.plan();
    assert_eq!(plan.moves.len(), 1, "loose-in-one-collection moves, doesn't copy");
    assert!(plan.copies.is_empty());
    assert!(plan.moves[0].to.starts_with(&music("Collections/Mix/")));
    assert_eq!(
        plan.moves[0].also_collection,
        Some((coll, "Mix".into())),
        "the move must also update the collection's primary file path"
    );
}

#[test]
fn plan_loose_track_in_two_collections_moves_to_first_copies_to_second() {
    let mut w = World::fresh();
    let tid = w.add_loose_track(src("song.mp3"), "Artist", "Song");
    let first = w.add_to_collection("Alpha", &[tid]);
    w.add_to_collection("Beta", &[tid]);
    let plan = w.plan();
    assert_eq!(plan.moves.len(), 1);
    assert_eq!(plan.copies.len(), 1);
    assert_eq!(plan.moves[0].also_collection.as_ref().map(|c| c.0), Some(first));
    assert_eq!(plan.copies[0].collection_name, "Beta");
}

#[test]
fn plan_skips_track_already_at_target_path() {
    let mut w = World::fresh();
    let target = music("Artist/Album (2024)/01 Song.mp3");
    w.add_album_track(target, "Artist", "Album", 1, "Song", Some(2024));
    let plan = w.plan();
    assert!(plan.moves.is_empty(), "in-place file should not be moved");
    assert_eq!(plan.skipped, 1);
}

#[test]
fn plan_disambiguates_filename_collision_with_numeric_suffix() {
    let mut w = World::fresh();
    w.add_album_track(src("a/song.mp3"), "Artist", "Album", 1, "Song", Some(2024));
    w.add_album_track(src("b/song.mp3"), "Artist", "Album", 1, "Song", Some(2024));
    let plan = w.plan();
    assert_eq!(plan.moves.len(), 2);
    let targets: Vec<&str> = plan.moves.iter().map(|m| m.to.as_str()).collect();
    assert!(targets.contains(&music("Artist/Album (2024)/01 Song.mp3").as_str()));
    assert!(
        targets.contains(&music("Artist/Album (2024)/01 Song (2).mp3").as_str()),
        "expected disambiguation suffix ' (2)' before extension; got {targets:?}"
    );
}

#[test]
fn plan_detects_missing_source_file_as_orphan() {
    let (mut w, tid) = one_song("Song", 1);
    w.files.remove(&src("song.mp3"));
    let plan = w.plan();
    assert!(plan.moves.is_empty(), "orphan should not be moved");
    assert_eq!(plan.missing_sources.len(), 1);
    assert_eq!(plan.missing_sources[0].0, tid);
}

#[test]
fn apply_move_relocates_file_and_updates_db_path() {
    let (mut w, _) = one_song("Song", 1);
    let result = w.organize();
    assert_eq!(result.moved, 1);
    assert!(result.errors.is_empty());
    let target = music("Artist/Album (2024)/01 Song.mp3");
    assert!(w.on_disk(&target), "target file should exist after move");
    assert!(!w.on_disk(&src("song.mp3")), "source should be gone after move");
    assert_eq!(w.tracks[0].file_path, target);
}

#[test]
fn apply_copy_creates_collection_file_and_updates_collection_tracks_path() {
    let (mut w, tid) = one_song("Song", 1);
    w.add_to_collection("Mix", &[tid]);
    let result = w.organize();
    assert_eq!(result.copied, 1);
    let path = w.tracks[0].collections[0].collection_file_path.clone().unwrap();
    assert!(w.on_disk(&path), "collection copy should exist on disk");
    assert!(path.contains("Collections/Mix/"));
}

#[test]
fn apply_move_with_also_collection_updates_both_tracks_and_collection_tracks() {
    let mut w = World::fresh();
    let tid = w.add_loose_track(src("song.mp3"), "Artist", "Song");
    w.add_to_collection("Mix", &[tid]);
    let result = w.organize();
    assert_eq!(result.moved, 1);
    assert_eq!(result.copied, 0, "no separate copy expected — the move is the copy");
    let path = w.tracks[0].collections[0].collection_file_path.clone().unwrap();
    assert_eq!(w.tracks[0].file_path, path, "both rows must point at the same file");
    assert!(w.on_disk(&path));
}

#[test]
fn apply_move_cleans_empty_source_directories_walking_up() {
    let mut w = World::fresh();
    w.add_album_track(src("nested/deep/song.mp3"), "Artist", "Album", 1, "Song", Some(2024));
    let result = w.organize();
    assert_eq!(result.moved, 1);
    assert!(result.dirs_cleaned >= 2, "got {}", result.dirs_cleaned);
    assert!(!w.on_disk(&src("nested/deep")), "deepest dir should be gone");
    assert!(!w.on_disk(&src("nested")), "intermediate empty dir should be gone");
}

#[test]
fn apply_deletes_orphan_track_rows() {
    let (mut w, _) = one_song("Song", 1);
    w.files.remove(&src("song.mp3"));
    assert_eq!(w.plan().missing_sources.len(), 1);
    let result = w.organize();
    assert_eq!(result.orphans_cleaned, 1);
    assert!(w.tracks.is_empty(), "orphan track row should be deleted");
}

#[test]
fn plan_picks_up_file_orphans_from_orphaned_files_table() {
    let mut w = World::fresh();
    let path = music("Artist/Album (2024)/old.mp3");
    w.touch(&path);
    w.add_orphan(&path, Some("Old Song"), "dup-replace");
    let plan = w.plan();
    assert_eq!(plan.file_orphans.len(), 1);
    let e = &plan.file_orphans[0];
    assert_eq!(e.path, path);
    assert_eq!(e.title.as_deref(), Some("Old Song"));
    assert_eq!(e.artist.as_deref(), Some("Artist"));
    assert_eq!(e.album_title.as_deref(), Some("Album"));
    assert_eq!(e.reason, "dup-replace");
}

#[test]
fn plan_includes_file_orphans_regardless_of_filter() {
    let mut w = World::fresh();
    let path = music("leftover.mp3");
    w.touch(&path);
    w.add_orphan(&path, None, "dup-replace");
    let plan = w.plan();
    assert!(plan.moves.is_empty());
    assert_eq!(plan.file_orphans.len(), 1);
}

#[test]
fn apply_unlinks_orphan_file_and_clears_tracking_row() {
    let mut w = World::fresh();
    let path = music("Artist/Album (2024)/old.mp3");
    w.touch(&path);
    w.add_orphan(&path, Some("Old"), "dup-replace");
    let result = w.organize();
    assert_eq!(result.file_orphans_removed, 1);
    assert!(result.errors.is_empty());
    assert!(!w.on_disk(&path), "orphan file should be unlinked");
    assert!(w.orphans.is_empty(), "orphan tracking row should be cleared");
}

#[test]
fn apply_treats_already_missing_orphan_as_success() {
    let mut w = World::fresh();
    w.add_orphan(&music("Artist/Album (2024)/ghost.mp3"), Some("Ghost"), "dup-replace");
    assert_eq!(w.plan().file_orphans.len(), 1);
    let result = w.organize();
    assert_eq!(result.file_orphans_removed, 1);
    assert!(result.errors.is_empty());
    assert!(w.orphans.is_empty());
}

#[test]
fn apply_cleans_empty_parent_directories_after_orphan_unlink() {
    let mut w = World::fresh();
    let path = music("Artist/Album (2024)/old.mp3");
    w.touch(&path);
    w.add_orphan(&path, None, "dup-replace");
    let result = w.organize();
    assert_eq!(result.file_orphans_removed, 1);
    assert!(result.dirs_cleaned >= 2, "got {}", result.dirs_cleaned);
    assert!(!w.on_disk(&music("Artist/Album (2024)")));
    assert!(!w.on_disk(&music("Artist")));
    assert!(w.on_disk(MUSIC), "music_dir itself must survive");
}

#[test]
fn apply_skips_orphan_unlink_when_path_was_just_occupied_by_move() {
    let mut w = World::fresh();
    w.add_album_track(src("03 Song.mp3"), "Artist", "Album", 3, "Song", Some(2024));
    let dest = music("Artist/Album (2024)/03 Song.mp3");
    w.touch(&dest);
    w.add_orphan(&dest, Some("Song"), "replaced by duplicate during import");
    let plan = w.plan();
    assert_eq!(plan.moves.len(), 1, "expected one move for the new import");
    assert_eq!(plan.file_orphans.len(), 1, "expected one pending orphan");
    assert_eq!(plan.moves[0].to, dest);
    let result = w.apply(&plan, OrganizeOperation::Move, &[MUSIC]);
    assert_eq!(result.moved, 1);
    assert_eq!(result.file_orphans_removed, 1);
    assert!(result.errors.is_empty(), "no errors expected, got: {:?}", result.errors);
    assert!(w.on_disk(&dest), "the freshly moved file must survive");
    assert_eq!(w.tracks[0].file_path, dest);
    assert!(w.orphans.is_empty());
}

#[test]
fn organizing_again_changes_nothing() {
    let mut w = World::fresh();
    let a = w.add_album_track(src("a.mp3"), "Artist", "Album", 1, "A", Some(2024));
    let b = w.add_album_track(src("b.mp3"), "Artist", "Album", 1, "A", Some(2024));
    let c = w.add_loose_track(src("c.mp3"), "Artist", "C");
    w.add_to_collection("Mix", &[a, b, c]);
    let first = w.organize();
    assert_eq!((first.moved, first.copied, first.errors.len()), (3, 2, 0));
    let plan = w.plan();
    assert!(plan.moves.is_empty() && plan.copies.is_empty());
    assert_eq!(plan.skipped, 5);
}

#[test]
fn a_destination_that_appeared_is_not_overwritten() {
    let (mut w, _) = one_song("Song", 1);
    let plan = w.plan();
    let dest = music("Artist/Album (2024)/01 Song.mp3");
    w.touch(&dest);
    let result = w.apply(&plan, OrganizeOperation::Move, &[MUSIC, SRC]);
    assert_eq!(result.moved, 0);
    assert_eq!(result.errors.len(), 1);
    assert_eq!(result.errors[0].0, src("song.mp3"));
    assert_eq!(
        result.errors[0].1,
        format!("destination {dest} already exists — skipped to avoid overwriting it")
    );
    assert!(w.on_disk(&src("song.mp3")));
}

#[test]
fn a_disk_may_not_tell_cases_apart() {
    let mut plan = OrganizePlan::default();
    plan.moves.push(FileMove {
        track_id: 1,
        from: "/w/inbox/a.mp3".to_string(),
        to: music("Song.mp3"),
        also_collection: None,
    });
    plan.file_orphans.push(FileOrphanEntry {
        id: 1,
        path: music("SONG.mp3"),
        title: None,
        artist: None,
        album_title: None,
        reason: String::new(),
    });
    for fold in [false, true] {
        let mut run = Apply::new(&plan, fold);
        let mut unlinked = false;
        loop {
            let event = match run.action(&plan, OrganizeOperation::Move) {
                Action::Check { .. } => {
                    Event::Checked { exists: false, resolved: None, second_resolved: None }
                }
                Action::Unlink { .. } => {
                    unlinked = true;
                    Event::Done
                }
                Action::Finish => break,
                _ => Event::Done,
            };
            run.step(&plan, OrganizeOperation::Move, &event);
        }
        assert_eq!(unlinked, !fold, "a file that was just put in place must not be unlinked");
    }
}

#[test]
fn a_copying_run_leaves_sources_in_place() {
    let (mut w, _) = one_song("Song", 1);
    let plan = w.plan();
    let result = w.apply(&plan, OrganizeOperation::Copy, &[MUSIC, SRC]);
    assert_eq!((result.moved, result.dirs_cleaned), (1, 0));
    assert!(w.on_disk(&src("song.mp3")));
    assert!(w.on_disk(&music("Artist/Album (2024)/01 Song.mp3")));
}

#[test]
fn rows_are_kept_when_most_sources_are_missing() {
    let mut w = World::fresh();
    for i in 0..40 {
        w.add_album_track(src(&format!("{i}.mp3")), "Artist", "Album", i, "Song", None);
    }
    let all: BTreeMap<String, ()> = w.files.iter().map(|f| (f.clone(), ())).collect();
    w.files.clear();
    let plan = w.plan();
    assert_eq!(plan.missing_sources.len(), all.len());
    assert!(plan.prune_blocked_reason.is_some());
    let result = w.apply(&plan, OrganizeOperation::Move, &[MUSIC, SRC]);
    assert_eq!(result.orphans_cleaned, 0);
    assert_eq!(result.prune_blocked_reason, plan.prune_blocked_reason);
    assert_eq!(w.tracks.len(), 40);
}

#[test]
fn covers_follow_their_album() {
    let (mut w, _) = one_song("Song", 1);
    let cover = src("cover.jpg");
    w.touch(&cover);
    let plan = w.plan_with(&vec![(1, cover.clone())]);
    assert_eq!(plan.cover_moves.len(), 1);
    assert_eq!(plan.cover_moves[0].from, cover);
    assert_eq!(plan.cover_moves[0].to, music("Artist/Album (2024)/cover.jpg"));
    let result = w.apply(&plan, OrganizeOperation::Move, &[MUSIC, SRC]);
    assert_eq!(result.covers_moved, 1);
    assert!(w.on_disk(&music("Artist/Album (2024)/cover.jpg")));
}

fn asked(w: &World, covers: &Vec<(i64, String)>, disk: &Vec<Probe>) -> Option<String> {
    let lib = LibrarySettings::with_dirs(MUSIC.to_string(), "/w/data".to_string());
    let all: Vec<String> = w.tracks.iter().map(|t| t.file_path.clone()).collect();
    match plan_organize(&lib, &None, &w.tracks, &all, &vec![], &w.orphans, covers, disk) {
        PlanOutcome::Ask(path) => Some(path),
        PlanOutcome::Plan(_) => None,
        PlanOutcome::Unavailable(m) => panic!("{m}"),
    }
}

#[test]
fn plans_ask_for_the_first_path_they_lack() {
    let mut w = World::fresh();
    w.add_album_track(src("a.mp3"), "Artist", "Album", 1, "Song", Some(2024));
    let cover = src("cover.jpg");
    let covers = vec![(1, cover.clone())];
    let target = music("Artist/Album (2024)/01 Song.mp3");
    let probe = |path: &str, exists: bool| Probe {
        path: path.to_string(),
        exists,
        resolved: Some(path.to_string()).filter(|_| exists),
    };
    let mut disk = Vec::new();
    let mut questions = Vec::new();
    while let Some(path) = asked(&w, &covers, &disk) {
        disk.push(probe(&path, true));
        questions.push(path);
        if questions.len() == 3 {
            disk[2].exists = false;
        }
    }
    let second = music("Artist/Album (2024)/01 Song (2).mp3");
    assert_eq!(questions, vec![src("a.mp3"), target.clone(), second, cover.clone()]);

    let lib = LibrarySettings::with_dirs(MUSIC.to_string(), "/w/data".to_string());
    let foreseen = foreseen_paths(&lib, &w.tracks, &covers);
    assert_eq!(foreseen, vec![src("a.mp3"), target, cover]);
    let disk = foreseen.iter().map(|p| probe(p, p.starts_with(SRC))).collect();
    assert_eq!(asked(&w, &covers, &disk), None);
}

#[test]
fn an_unreadable_music_directory_is_reported() {
    let lib = LibrarySettings::with_dirs(MUSIC.to_string(), "/w/data".to_string());
    let fault = Some("no such device".to_string());
    match plan_organize(&lib, &fault, &vec![], &vec![], &vec![], &vec![], &vec![], &vec![]) {
        PlanOutcome::Unavailable(m) => assert_eq!(
            m,
            "music directory /w/music is not accessible (no such device) — is the drive mounted?"
        ),
        _ => panic!("the directory cannot be read"),
    }
}

fn remove_empty_parents(w: &mut World, dir: &str, root: &str) -> u32 {
    w.sweep(Sweep::start(&vec![dir.to_string()], &vec![root.to_string()]))
}

fn with_dirs(dirs: &[&str]) -> World {
    let mut w = World::fresh();
    w.dirs = dirs.iter().map(|d| d.to_string()).collect();
    w
}

#[test]
fn remove_empty_parents_refuses_to_touch_path_outside_roots() {
    let mut w = with_dirs(&["/t", "/t/unmanaged", "/t/unmanaged/deep"]);
    let cleaned = remove_empty_parents(&mut w, "/t/unmanaged/deep", "/t/some_other_root");
    assert_eq!(cleaned, 0);
    assert!(w.on_disk("/t/unmanaged/deep"), "dir outside any root must not be deleted");
}

#[test]
fn remove_empty_parents_never_deletes_root_itself() {
    let mut w = with_dirs(&["/t", "/t/music", "/t/music/Artist", "/t/music/Artist/Album"]);
    let cleaned = remove_empty_parents(&mut w, "/t/music/Artist/Album", "/t/music");
    assert_eq!(cleaned, 2);
    assert!(w.on_disk("/t/music"), "root must never be deleted");
    assert!(!w.on_disk("/t/music/Artist"));
}

#[test]
fn remove_empty_parents_stops_at_root_boundary() {
    let mut w = with_dirs(&["/t", "/t/music", "/t/music/Artist", "/t/sibling"]);
    remove_empty_parents(&mut w, "/t/music/Artist", "/t/music");
    assert!(!w.on_disk("/t/music/Artist"), "empty child inside root should be cleaned");
    assert!(w.on_disk("/t/music"), "root preserved");
    assert!(w.on_disk("/t/sibling"), "sibling outside root must be untouched");
    assert!(w.on_disk("/t"), "walk must not climb above root");
}
