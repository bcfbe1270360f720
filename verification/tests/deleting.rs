use kyoku::collection_delete::{
    collection_deletion_job, find_other_collection_path, plan_delete_collection,
    plan_delete_collection_with_roots, DeleteCollectionPlan, OtherCopy,
};
use kyoku::deletion::{Deletion, Job, Order, Reply, Tallied};
use kyoku::pruner::{deletion_job, plan_delete_albums, plan_delete_tracks, DeletePlan};
use kyoku::rows::{CollectionTrackHomes, TrackDeleteInfo};
use std::collections::BTreeSet;

const MUSIC: &str = "/w/music";

fn music(p: &str) -> String {
    format!("{MUSIC}/{p}")
}

fn roots() -> Vec<String> {
    vec![MUSIC.to_string()]
}

fn info(track_id: i64, path: &str, album_id: Option<i64>, copies: &[String]) -> TrackDeleteInfo {
    TrackDeleteInfo {
        track_id,
        file_path: path.to_string(),
        album_id,
        collection_count: copies.len() as u32,
        collection_copies: copies.to_vec(),
    }
}

/// What a run has done: the rows it removed, its tally, and the directories
/// it cleaned.
struct Ran {
    tracks: Vec<i64>,
    albums: Vec<i64>,
    collections: Vec<i64>,
    moved: Vec<(i64, String)>,
    tally: Tallied,
    dirs_cleaned: u32,
}

fn run(job: &Job, files: &mut BTreeSet<String>, dirs: &mut BTreeSet<String>) -> Ran {
    let mut deletion = Deletion::new(job);
    let (mut tracks, mut albums, mut collections, mut moved) = (vec![], vec![], vec![], vec![]);
    loop {
        let reply = match deletion.order(job) {
            Order::Look { path } => Reply::Exists(files.contains(&path)),
            Order::Unlink { path } => {
                if files.remove(&path) {
                    Reply::Done
                } else {
                    Reply::Failed("gone".to_string())
                }
            }
            Order::SetTrackPath { track_id, path } => {
                moved.push((track_id, path));
                Reply::Done
            }
            Order::DeleteTrack { track_id } => {
                tracks.push(track_id);
                Reply::Done
            }
            Order::DeleteAlbum { album_id } => {
                albums.push(album_id);
                Reply::Done
            }
            Order::DeleteCollection { collection_id } => {
                collections.push(collection_id);
                Reply::Done
            }
            Order::Finish => break,
        };
        deletion.reply(job, &reply);
    }
    let mut sweep = deletion.sweep(job);
    while let Some(dir) = sweep.pending() {
        let below = format!("{dir}/");
        let used = files.iter().chain(dirs.iter()).any(|p| p.starts_with(&below));
        sweep.report(!used && dirs.remove(&dir));
    }
    let dirs_cleaned = sweep.cleaned();
    Ran { tracks, albums, collections, moved, tally: deletion.finish(), dirs_cleaned }
}

fn set(paths: &[&str]) -> BTreeSet<String> {
    paths.iter().map(|p| p.to_string()).collect()
}

#[test]
fn plan_delete_tracks_collects_collection_copies() {
    let primary = music("Artist/Album/track.mp3");
    let copy_a = music("Collections/A/track.mp3");
    let copy_b = music("Collections/B/track.mp3");
    let infos = vec![info(1, &primary, Some(1), &[copy_a.clone(), copy_b.clone()])];

    let plan = plan_delete_tracks(&infos, &roots(), &vec![]);

    assert_eq!(plan.track_ids, vec![1]);
    assert!(plan.album_ids.is_empty(), "plan_delete_tracks never removes albums");
    assert_eq!(plan.files_to_delete, vec![primary]);
    let mut copies = plan.collection_copies_to_delete.clone();
    copies.sort();
    assert_eq!(copies, vec![copy_a, copy_b]);
}

#[test]
fn plan_delete_album_lists_tracks_and_album_row() {
    let p1 = music("Artist/Album/01.mp3");
    let p2 = music("Artist/Album/02.mp3");
    let infos = vec![info(1, &p1, Some(7), &[]), info(2, &p2, Some(7), &[])];

    let plan = plan_delete_albums(&vec![7], &infos, &roots(), &vec![]);

    let mut track_ids = plan.track_ids.clone();
    track_ids.sort();
    assert_eq!(track_ids, vec![1, 2]);
    assert_eq!(plan.album_ids, vec![7]);
    let mut files = plan.files_to_delete.clone();
    files.sort();
    assert_eq!(files, vec![p1, p2]);
}

fn one_song() -> (String, DeletePlan, BTreeSet<String>, BTreeSet<String>) {
    let p = music("Artist/Album/song.mp3");
    let plan = plan_delete_tracks(&vec![info(1, &p, Some(1), &[])], &roots(), &vec![]);
    let files = set(&[&p]);
    let dirs = set(&["/w", MUSIC, "/w/music/Artist", "/w/music/Artist/Album"]);
    (p, plan, files, dirs)
}

#[test]
fn apply_delete_plan_keeps_files_when_flag_false() {
    let (p, plan, mut files, mut dirs) = one_song();

    let ran = run(&deletion_job(&plan, false, &roots()), &mut files, &mut dirs);

    assert_eq!(ran.tally.tracks_deleted, 1);
    assert_eq!(ran.tally.files_deleted, 0, "delete_files=false leaves physical files alone");
    assert!(files.contains(&p), "file should survive");
    assert_eq!(ran.tracks, vec![1], "track row should still be removed");
}

#[test]
fn apply_delete_plan_removes_files_and_empty_parents() {
    let (p, plan, mut files, mut dirs) = one_song();

    let ran = run(&deletion_job(&plan, true, &roots()), &mut files, &mut dirs);

    assert_eq!(ran.tally.files_deleted, 1);
    assert_eq!(ran.tally.tracks_deleted, 1);
    assert!(!files.contains(&p), "file should be deleted");
    assert!(!dirs.contains("/w/music/Artist/Album"), "empty album dir cleaned");
    assert!(!dirs.contains("/w/music/Artist"), "empty artist dir cleaned");
    assert!(dirs.contains(MUSIC), "music_dir root preserved");
    assert!(ran.dirs_cleaned >= 2);
}

#[test]
fn apply_delete_plan_rejects_path_outside_managed_roots() {
    let outside = "/w/elsewhere/song.mp3".to_string();
    let infos = vec![info(1, &outside, None, &[])];
    let plan = plan_delete_tracks(&infos, &vec!["/w".to_string()], &vec![]);
    assert_eq!(plan.files_to_delete, vec![outside.clone()]);

    let mut files = set(&[&outside]);
    let ran = run(&deletion_job(&plan, true, &roots()), &mut files, &mut set(&["/w/elsewhere"]));

    assert_eq!(ran.tally.files_deleted, 0, "apply must refuse unmanaged paths");
    assert!(files.contains(&outside), "file outside cleanup_roots is untouched");
    assert_eq!(ran.tally.tracks_deleted, 1);
}

#[test]
fn plan_delete_flags_files_outside_managed_roots() {
    let outside = "/w/elsewhere/song.mp3".to_string();
    let plan = plan_delete_tracks(&vec![info(1, &outside, None, &[])], &roots(), &vec![]);
    assert!(plan.files_to_delete.is_empty());
    assert_eq!(plan.files_outside_managed, vec![outside]);
}

#[test]
fn affected_albums_are_summarised() {
    let label = |id: i64| (id, format!("Artist {id}"), format!("Album {id}"));
    let labels = vec![label(1), label(2), label(4)];
    let infos = vec![
        info(1, "/w/music/a", Some(2), &[]),
        info(2, "/w/music/b", Some(1), &[]),
        info(3, "/w/music/c", Some(2), &[]),
    ];
    let plan = plan_delete_albums(&vec![4, 3, 1, 4], &infos, &roots(), &labels);
    assert_eq!(plan.album_ids, vec![1, 3, 4]);
    assert_eq!(
        plan.album_summary_lines,
        vec!["Artist 1 / Album 1 (1)", "Artist 2 / Album 2 (2)", "(album #3) (0)"]
    );
    assert_eq!(plan.additional_albums, 1);
    assert_eq!(plan.deletable_file_count(), 3);
    assert!(!plan.is_empty());
    assert!(DeletePlan::default().is_empty());
    let ran = run(&deletion_job(&plan, false, &roots()), &mut set(&[]), &mut set(&[]));
    assert_eq!(ran.albums, vec![1, 3, 4]);
    assert_eq!(ran.tally.albums_deleted, 3);
}

fn homes(track_id: i64, path: &str, copy: Option<&str>, others: u32) -> CollectionTrackHomes {
    CollectionTrackHomes {
        track_id,
        track_file_path: path.to_string(),
        collection_file_path: copy.map(String::from),
        has_album: false,
        other_collection_count: others,
    }
}

fn mix() -> (String, DeleteCollectionPlan) {
    let abs = music("Collections/Mix/song.mp3");
    let rows = vec![homes(5, &abs, Some(&abs), 0)];
    let plan = plan_delete_collection(3, &Some("Mix".to_string()), &rows, &vec![], MUSIC);
    (abs, plan)
}

#[test]
fn plan_delete_classifies_files_inside_music_dir_for_deletion() {
    let (abs, plan) = mix();
    assert_eq!(plan.files_to_delete, vec![abs]);
    assert!(plan.files_outside_music_dir.is_empty());
}

#[test]
fn plan_delete_classifies_files_outside_music_dir_as_skipped() {
    let outside = "/w/elsewhere/song.mp3";
    let rows = vec![homes(5, outside, Some(outside), 0)];
    let plan = plan_delete_collection(3, &Some("Mix".to_string()), &rows, &vec![], MUSIC);
    assert!(plan.files_to_delete.is_empty());
    assert_eq!(plan.files_outside_music_dir, vec![outside]);
}

#[test]
fn plan_delete_marks_track_orphaned_when_no_album_and_no_other_collection() {
    let (_, plan) = mix();
    assert_eq!(plan.orphaned_track_ids, vec![5]);
}

#[test]
fn plan_delete_promotes_alternate_collection_path_when_track_has_other_home() {
    let a = music("Collections/A/song.mp3");
    let b = music("Collections/B/song.mp3");
    let rows = vec![homes(5, &a, Some(&a), 1)];
    let copies = vec![OtherCopy { track_id: 5, path: b.clone(), exists: false }];
    let plan = plan_delete_collection(3, &Some("A".to_string()), &rows, &copies, MUSIC);
    assert!(plan.orphaned_track_ids.is_empty(), "track has another home, not orphaned");
    assert_eq!(
        plan.promote_paths,
        vec![(5, b)],
        "should promote B's path to be the new tracks.file_path"
    );
}

#[test]
fn a_copy_on_disk_is_preferred() {
    let copy = |track_id: i64, path: &str, exists: bool| OtherCopy { track_id, path: path.to_string(), exists };
    let copies = vec![copy(5, "/x/1", false), copy(6, "/x/2", true), copy(5, "/x/3", true)];
    assert_eq!(find_other_collection_path(&copies, 5).as_deref(), Some("/x/3"));
    assert_eq!(find_other_collection_path(&vec![copy(5, "/x/1", false)], 5).as_deref(), Some("/x/1"));
    assert_eq!(find_other_collection_path(&copies, 9), None);
}

#[test]
fn apply_delete_with_files_true_removes_files_and_orphan_track_rows() {
    let (abs, plan) = mix();
    let mut files = set(&[&abs]);
    let mut dirs = set(&["/w/music/Collections", "/w/music/Collections/Mix"]);

    let ran = run(&collection_deletion_job(&plan, true, &roots()), &mut files, &mut dirs);

    assert_eq!(ran.tally.files_deleted, 1);
    assert_eq!(ran.tally.tracks_deleted, 1);
    assert!(!files.contains(&abs), "physical file should be deleted");
    assert_eq!(ran.tracks, vec![5], "orphaned track row should be deleted");
    assert_eq!(ran.collections, vec![3], "collection row should be gone");
    assert_eq!(ran.dirs_cleaned, 2);
}

#[test]
fn apply_delete_with_files_false_keeps_files_but_cleans_db() {
    let (abs, plan) = mix();
    let mut files = set(&[&abs]);

    let ran = run(&collection_deletion_job(&plan, false, &roots()), &mut files, &mut set(&[]));

    assert_eq!(ran.tally.files_deleted, 0, "files=false should leave files alone");
    assert_eq!(
        ran.tally.tracks_deleted, 1,
        "orphan tracks should be removed from the library even when files remain"
    );
    assert!(files.contains(&abs), "physical file should remain");
    assert_eq!(ran.collections, vec![3]);
    assert_eq!(ran.tracks, vec![5]);
}

#[test]
fn promoted_files_are_recorded() {
    let a = music("Collections/A/song.mp3");
    let rows = vec![homes(5, &a, Some(&a), 1)];
    let copies = vec![OtherCopy { track_id: 5, path: music("b.mp3"), exists: true }];
    let plan = plan_delete_collection_with_roots(3, &None, &rows, &copies, &roots());
    assert_eq!(plan.collection_name, "(unknown)");
    let ran = run(&collection_deletion_job(&plan, true, &roots()), &mut set(&[&a]), &mut set(&[]));
    assert_eq!(ran.moved, vec![(5, music("b.mp3"))]);
    assert!(ran.tracks.is_empty());
}
