use kyoku::import_run::{ImportAction, ImportEvent, ImportRun};
use kyoku::importer::{
    album_group_key, detect_sibling_cover, group_has_consistent_album_tags, group_into_albums,
    makes_collection, ordered_group_indices, plan_import, scan_audio_files_with_report, scan_inbox,
    scan_inbox_with_report, ImportResult, Intake, Intaken,
};
use kyoku::models::{AudioFormat, TagStatus, Track};
use kyoku::tagger::TagData;

fn strings(v: &[&str]) -> Vec<String> {
    v.iter().map(|s| s.to_string()).collect()
}

fn found(v: &[&str]) -> Vec<Option<String>> {
    v.iter().map(|s| Some(s.to_string())).collect()
}

fn test_track(path: &str, source_dir: &str, title: &str) -> Track {
    Track {
        id: None,
        album_id: None,
        title: title.to_string(),
        artist: Some("Artist".to_string()),
        track_number: Some(1),
        disc_number: 1,
        duration_ms: None,
        mbid: None,
        file_path: path.to_string(),
        file_format: AudioFormat::Mp3,
        bitrate: None,
        sample_rate: None,
        tag_status: TagStatus::Unmatched,
        source_dir: Some(source_dir.to_string()),
    }
}

fn tag_with_album(album: &str) -> TagData {
    TagData {
        title: None,
        artist: Some("Artist".to_string()),
        album: Some(album.to_string()),
        album_artist: Some("Artist".to_string()),
        year: None,
        track_number: Some(1),
        disc_number: Some(1),
        genre: None,
        duration_ms: None,
        mb_release_id: None,
    }
}

const LIBRARY: [&str; 4] = ["/f/tagged.mp3", "/f/no_title.mp3", "/f/cjk_tagged.mp3", "/f/not_audio.txt"];

#[test]
fn test_scan_audio_files() {
    let files = scan_audio_files_with_report(&found(&LIBRARY)).files;
    assert!(files.len() >= 3);
    assert!(files.iter().all(|f| f.ends_with(".mp3")));
    assert_eq!(files, strings(&["/f/cjk_tagged.mp3", "/f/no_title.mp3", "/f/tagged.mp3"]));
}

#[test]
fn group_into_albums_keeps_mixed_album_tags_in_one_directory_together() {
    let dir = "/inbox/mixed";
    let tracks = vec![
        test_track("/inbox/mixed/a.mp3", dir, "A"),
        test_track("/inbox/mixed/b.mp3", dir, "B"),
        test_track("/inbox/mixed/c.mp3", dir, "C"),
    ];
    let tags = vec![
        Some(tag_with_album("Album A")),
        Some(tag_with_album("album a ")),
        Some(tag_with_album("Album B")),
    ];

    let groups = group_into_albums(&tracks, false);

    assert_eq!(groups.len(), 1);
    assert!(groups.iter().any(|b| b.indices == vec![0, 1, 2]));
    assert!(!group_has_consistent_album_tags(&vec![0, 1, 2], &tags));
    assert!(group_has_consistent_album_tags(&vec![0, 1], &tags));
    assert!(!group_has_consistent_album_tags(&vec![], &tags));
}

#[test]
fn loose_tracks_stay_apart() {
    let tracks = vec![test_track("/i/a.mp3", "/i", "A"), test_track("/i/b.mp3", "/i", "B")];
    assert_eq!(group_into_albums(&tracks, true).len(), 2);
    assert_eq!(album_group_key(&tracks[1], 1, true), "__loose__1");
    assert_eq!(album_group_key(&tracks[1], 1, false), "/i");
}

#[test]
fn albums_are_planned_from_consistent_tags() {
    let tracks = vec![test_track("/i/a.mp3", "/i", "A"), test_track("/i/b.mp3", "/i", "B")];
    let mut first = tag_with_album("Album A");
    first.year = Some(1999);
    let tags = vec![Some(first), Some(tag_with_album("Album A"))];
    let plan = plan_import(&tracks, &tags, false);
    assert_eq!(plan.len(), 1);
    let album = plan[0].album.as_ref().unwrap();
    assert_eq!(album.title, "Album A");
    assert_eq!(album.year, Some(1999));
    assert_eq!(album.track_total, 2);
    assert_eq!(album.cover_dir.as_deref(), Some("/i"));
    assert!(plan_import(&tracks, &tags, true).iter().all(|b| b.album.is_none()));
}

#[test]
fn groups_follow_their_track_numbers() {
    let mut a = test_track("/i/a.mp3", "/i", "A");
    let mut b = test_track("/i/b.mp3", "/i", "B");
    a.track_number = Some(2);
    b.track_number = Some(1);
    let tags = vec![Some(tag_with_album("X")), Some(tag_with_album("X"))];
    assert_eq!(ordered_group_indices(&vec![0, 1], &vec![a, b], &tags), vec![1, 0]);
}

/// A library in memory: its tracks by path, and the members of its
/// collections.
#[derive(Default)]
struct Library {
    tracks: Vec<(String, i64)>,
    albums: Vec<String>,
    collections: Vec<(String, Vec<i64>)>,
    /// What the last run did, in order.
    log: Vec<String>,
}

impl Library {
    fn members(&self, name: &str) -> usize {
        self.collections.iter().find(|c| c.0 == name).map_or(0, |c| c.1.len())
    }

    fn join(&mut self, collection_id: i64, track_id: i64) -> bool {
        let members = &mut self.collections[collection_id as usize - 1].1;
        let new = !members.contains(&track_id);
        if new {
            members.push(track_id);
        }
        new
    }

    /// Imports the files of `LIBRARY`.
    fn import(&mut self, collection: Option<&str>, loose: bool, pretend: bool) -> ImportResult {
        let scan = scan_audio_files_with_report(&found(&LIBRARY));
        let mut run =
            ImportRun::new(&scan.files, scan.skipped_non_utf8, &collection.map(String::from), loose, pretend);
        self.log.clear();
        loop {
            let event = match run.action() {
                ImportAction::TakeIn { file } => {
                    let seen = match self.tracks.iter().find(|t| t.0 == file) {
                        Some(t) => Intaken::Known(Some(t.1)),
                        None => Intaken::Read { track: test_track(&file, "/f", "T"), tags: tag_with_album("X") },
                    };
                    ImportEvent::Seen { abs_path: file, seen }
                }
                ImportAction::MakeCollection { name } => {
                    self.log.push(format!("collection {name}"));
                    let at = self.collections.iter().position(|c| c.0 == name);
                    if at.is_none() {
                        self.collections.push((name, Vec::new()));
                    }
                    let id = at.unwrap_or(self.collections.len() - 1) as i64 + 1;
                    ImportEvent::Collection { id, created: at.is_none() }
                }
                ImportAction::Join { collection_id, track_id } => {
                    self.log.push(format!("join {collection_id} {track_id}"));
                    ImportEvent::Joined { added: self.join(collection_id, track_id) }
                }
                ImportAction::MakeAlbum { batch } => {
                    let title = run.batches()[batch].album.as_ref().unwrap().title.clone();
                    self.log.push(format!("album {title}"));
                    let at = self.albums.iter().position(|a| *a == title);
                    if at.is_none() {
                        self.albums.push(title);
                    }
                    let id = at.unwrap_or(self.albums.len() - 1) as i64 + 1;
                    ImportEvent::Album { id, created: at.is_none() }
                }
                ImportAction::ListFiles { dir } => {
                    self.log.push(format!("list {dir}"));
                    ImportEvent::Files(strings(&["/f/cover.jpg"]))
                }
                ImportAction::SetCover { album_id, path } => {
                    self.log.push(format!("cover {album_id} {path}"));
                    ImportEvent::Done
                }
                ImportAction::Insert { track, album_id } => {
                    let path = run.intake().tracks[track].file_path.clone();
                    self.log.push(format!("insert {path} {album_id:?}"));
                    let id = 101 + self.tracks.len() as i64;
                    self.tracks.push((path, id));
                    ImportEvent::Inserted { id }
                }
                ImportAction::AddMembers { collection_id, track_ids } => {
                    self.log.push(format!("members {collection_id} {track_ids:?}"));
                    for id in track_ids {
                        self.join(collection_id, id);
                    }
                    ImportEvent::Done
                }
                ImportAction::Commit => {
                    self.log.push("commit".to_string());
                    ImportEvent::Done
                }
                ImportAction::Nothing => return run.finish(),
            };
            run.step(event);
        }
    }
}

#[test]
fn test_import_basic() {
    let mut lib = Library::default();
    let result = lib.import(None, false, false);
    assert!(result.imported >= 3);
    assert_eq!(result.skipped_duplicate, 0);
    assert_eq!(result.albums_created, 1);
    assert_eq!(lib.tracks.len(), 3);
}

#[test]
fn test_import_duplicates_skipped() {
    let mut lib = Library::default();
    // Import once
    let first = lib.import(None, false, false);
    let tracks = lib.tracks.clone();
    // Import again: all are skipped
    let result = lib.import(None, false, false);
    assert_eq!(result.imported, 0);
    assert!(result.skipped_duplicate >= 3);
    assert_eq!(result.skipped_duplicate, first.imported);
    assert_eq!(result.albums_created, 0);
    assert_eq!(lib.tracks, tracks);
    assert!(lib.log.is_empty());
}

#[test]
fn test_import_loose() {
    let mut lib = Library::default();
    let result = lib.import(None, true, false);
    assert!(result.imported >= 3);
    assert_eq!(result.albums_created, 0);
    assert!(lib.albums.is_empty());
}

#[test]
fn test_import_pretend() {
    let mut lib = Library::default();
    let result = lib.import(None, false, true);
    assert_eq!(result.imported, 0);
    assert!(lib.tracks.is_empty() && lib.log.is_empty());
}

#[test]
fn test_import_with_collection() {
    let mut lib = Library::default();
    let result = lib.import(Some("Test Collection"), true, false);
    assert!(result.imported >= 3);
    assert!(lib.members("Test Collection") >= 3);
    assert_eq!(lib.log.iter().filter(|l| l.starts_with("members 1")).count(), 3);
    assert_eq!(lib.log[0], "collection Test Collection");
    assert!(result.collection_created);
}

#[test]
fn test_reimport_with_collection_adds_existing_tracks() {
    let mut lib = Library::default();
    // Import once without collection
    let result1 = lib.import(None, true, false);
    assert!(result1.imported >= 3);

    // Import again with a collection: the duplicates join it
    let result2 = lib.import(Some("Favorites"), true, false);
    assert_eq!(result2.imported, 0);
    assert!(result2.skipped_duplicate >= 3);
    assert!(result2.added_to_collection >= 3);
    assert!(result2.collection_created);
    assert!(lib.members("Favorites") >= 3);
    assert_eq!(lib.log, ["collection Favorites", "join 1 101", "join 1 102", "join 1 103"]);

    // Once they are in it, nothing is added
    let result3 = lib.import(Some("Favorites"), true, false);
    assert_eq!((result3.skipped_duplicate, result3.added_to_collection), (3, 0));
    assert!(!result3.collection_created);
    assert_eq!(lib.members("Favorites"), 3);
}

#[test]
fn an_album_is_inserted_with_its_cover() {
    let mut lib = Library::default();
    let result = lib.import(Some("C"), false, false);
    let first = "insert /f/cjk_tagged.mp3 Some(1)";
    assert_eq!(lib.log[..5], ["collection C", "album X", "list /f", "cover 1 /f/cover.jpg", first]);
    assert_eq!(lib.log[7..], ["members 1 [101, 102, 103]", "commit"]);
    assert_eq!((result.imported, result.albums_created), (3, 1));
}

#[test]
fn a_dry_run_does_nothing() {
    let mut lib = Library { tracks: vec![("/f/tagged.mp3".to_string(), 7)], ..Library::default() };
    let result = lib.import(Some("C"), false, true);
    assert!(lib.log.is_empty());
    assert_eq!((result.imported, result.skipped_duplicate), (0, 1));
    assert!(!makes_collection(&Some("C".to_string()), true));
    let empty = ImportRun::new(&vec![], 4, &Some("C".to_string()), false, false);
    assert!(matches!(empty.action(), ImportAction::Nothing));
    assert_eq!(empty.finish().skipped_non_utf8, 4);
}

#[test]
fn unreadable_files_are_reported() {
    let mut intake = Intake::new(2);
    intake.take_in("/f/x.mp3", "/f/x.mp3".to_string(), false, Intaken::Unreadable("bad".to_string()));
    assert_eq!(intake.result.skipped_error, 1);
    assert_eq!(intake.result.skipped_non_utf8, 2);
    assert_eq!(intake.result.errors, vec![("/f/x.mp3".to_string(), "bad".to_string())]);
}

#[test]
fn detect_sibling_cover_picks_first_basename_hit() {
    let files = strings(&["/t/folder.png", "/t/cover.jpg", "/t/song.mp3"]);
    assert_eq!(detect_sibling_cover(&files).unwrap(), "/t/cover.jpg");
}

#[test]
fn detect_sibling_cover_is_case_insensitive() {
    assert_eq!(detect_sibling_cover(&strings(&["/t/Front.JPEG"])).unwrap(), "/t/Front.JPEG");
}

#[test]
fn detect_sibling_cover_accepts_all_extensions() {
    for ext in ["jpg", "jpeg", "png", "webp"] {
        let name = format!("/t/albumart.{}", ext);
        assert_eq!(detect_sibling_cover(&vec![name.clone()]).unwrap(), name);
    }
}

#[test]
fn detect_sibling_cover_returns_none_when_missing() {
    assert!(detect_sibling_cover(&strings(&["/t/song.mp3", "/t/notes.txt"])).is_none());
}

#[test]
fn detect_sibling_cover_ignores_unknown_basenames() {
    assert!(detect_sibling_cover(&strings(&["/t/random.jpg"])).is_none());
}

#[test]
fn scan_audio_files_skips_non_utf8_paths() {
    let result = scan_audio_files_with_report(&vec![None]);
    assert!(result.files.is_empty());
    assert_eq!(result.skipped_non_utf8, 1);
}

#[test]
fn scan_audio_files_skips_kyoku_tmp_marker() {
    let files = scan_audio_files_with_report(&found(&["/t/real.mp3", "/t/real.kyoku-tmp.mp3"])).files;
    assert_eq!(files, strings(&["/t/real.mp3"]));
}

#[test]
fn test_scan_inbox_empty() {
    let unimported = scan_inbox(&strings(&LIBRARY[..3]), &vec![]);
    assert!(unimported.len() >= 3);
}

#[test]
fn test_scan_inbox_after_import() {
    let unimported = scan_inbox(&strings(&LIBRARY[..3]), &strings(&LIBRARY[..3]));
    assert_eq!(unimported.len(), 0);
}

#[test]
fn inbox_scans_are_reported_together() {
    let scans = vec![
        scan_audio_files_with_report(&found(&["/a/1.mp3"])),
        scan_audio_files_with_report(&vec![None, Some("/b/2.flac".to_string())]),
    ];
    let r = scan_inbox_with_report(&scans, &strings(&["/a/1.mp3"]));
    assert_eq!(r.files, strings(&["/b/2.flac"]));
    assert_eq!(r.skipped_non_utf8, 1);
}
