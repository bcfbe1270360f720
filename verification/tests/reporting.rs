use kyoku::importer::ImportResult;
use kyoku::models::{AudioFormat, TagStatus, Track};
use kyoku::organize_apply::OrganizeResult;
use kyoku::organize_preview::{build_details, build_summary};
use kyoku::organizer::{FileCopy, FileMove, FileOrphanEntry, OrganizePlan};
use kyoku::player::PlayOutcome;
use kyoku::report::{
    choose_album, import_done, info, nothing_to_organize, organize_done, paths, plan_details,
    plan_summary, plan_totals, play_preview, playing, scan_done, AlbumChoice,
};
use kyoku::tagger::TagData;

fn text(lines: &[String]) -> String {
    lines.join("\n")
}

fn plan() -> OrganizePlan {
    let file_move = |from: &str, to: &str| FileMove {
        track_id: 1,
        from: from.to_string(),
        to: to.to_string(),
        also_collection: None,
    };
    let mut plan = OrganizePlan::default();
    plan.moves.push(file_move("/in/a.mp3", "/m/A/a.mp3"));
    plan.moves.push(file_move("/in/b.mp3", "/m/A/c.mp3"));
    plan.moves.push(file_move("/m/A/x.mp3", "/m/A/y.mp3"));
    plan.copies.push(FileCopy {
        track_id: 1,
        collection_id: 1,
        collection_name: "Mix".to_string(),
        from: "/m/A/a.mp3".to_string(),
        to: "/m/Collections/Mix/01.mp3".to_string(),
    });
    plan.missing_sources.push((7, "/in/gone.mp3".to_string(), "Gone".to_string()));
    plan.file_orphans.push(FileOrphanEntry {
        id: 1,
        path: "/m/A/c.mp3".to_string(),
        title: None,
        artist: None,
        album_title: None,
        reason: "r".to_string(),
    });
    plan.skipped = 4;
    plan
}

#[test]
fn details_list_every_file() {
    let plan = plan();
    let lines = plan_details(&plan, &build_details(&plan, &vec![]));
    assert_eq!(
        text(&lines),
        "Moves (3):\n  a.mp3\n    from: /in\n    → to: /m/A\n  b.mp3  ⟲ overwrites existing\n    from: /in\n    \
         → to: /m/A/c.mp3\n    note: replaces a file logged for cleanup during a prior dup-replace import\n  \
         x.mp3\n    from: /m/A\n    → to: /m/A/y.mp3\n\nCollection copies (1):\n  01.mp3 → /m/Collections/Mix \
         (collection: Mix)\n\nOrphaned tracks (1 — DB rows will be pruned):\n  [7] Gone — /in/gone.mp3\n"
    );
}

#[test]
fn summaries_group_by_directory() {
    let mut plan = plan();
    for i in 0..10 {
        plan.missing_sources.push((i, format!("/in/{i}"), "T".to_string()));
    }
    plan.prune_blocked_reason = Some("too many".to_string());
    let lines = plan_summary(&plan, &build_summary(&plan, &vec![]));
    assert_eq!(
        text(&lines[..10]),
        "  /in (2 files)\n  → /m/A\n\nrenamed in place:\n  /m/A (1 files)\n\n  copy (1 files) → collection: Mix\n\n\
         Missing source files (11 — prune blocked — rows kept):\n  [7] Gone — /in/gone.mp3"
    );
    assert_eq!(lines.len(), 21);
    assert_eq!(&lines[18], "  [8] T — /in/8");
    assert_eq!(&lines[19], "  … and 1 more");
    assert_eq!(
        text(&plan_totals(&plan)),
        "3 file(s) to move, 1 to copy, 4 already in place, 11 orphaned\n\n⚠ too many"
    );
}

#[test]
fn an_empty_plan_has_nothing_to_show() {
    let plan = OrganizePlan::default();
    assert!(nothing_to_organize(&plan));
    assert!(plan_details(&plan, &build_details(&plan, &vec![])).is_empty());
    assert!(plan_summary(&plan, &build_summary(&plan, &vec![])).is_empty());
    assert!(!nothing_to_organize(&self::plan()));
}

#[test]
fn finished_runs_are_reported() {
    let result = OrganizeResult {
        moved: u32::MAX,
        copied: 2,
        covers_moved: 1,
        errors: vec![("/a".to_string(), "bad".to_string())],
        dirs_cleaned: 3,
        orphans_cleaned: 4,
        file_orphans_removed: 5,
        prune_blocked_reason: Some("why".to_string()),
    };
    assert_eq!(
        text(&organize_done(&result)),
        "Done: 4294967296 moved, 2 copied, 3 dirs cleaned, 4 orphans pruned, 5 orphan files deleted\n⚠ why\nErrors:\n  /a — bad"
    );
}

#[test]
fn imports_are_reported() {
    let mut total = ImportResult::default();
    assert_eq!(
        text(&import_done(&Some("Mix".to_string()), &total)),
        "\nImport complete: 0 imported, 0 skipped (duplicate), 0 skipped (non-UTF-8 filename — rename to import), 0 errors"
    );
    total.imported = 1;
    total.added_to_collection = 2;
    total.albums_created = 3;
    total.albums_existing = 4;
    total.collection_created = true;
    total.skipped_error = 1;
    total.errors = vec![("/x".to_string(), "no".to_string())];
    assert_eq!(
        text(&import_done(&Some("Mix".to_string()), &total)),
        "\nAlbums created: 3\nAdded to existing albums: 4\nCollection created: Mix (1 track, 2 existing tracks added)\n\
         Import complete: 1 imported, 0 skipped (duplicate), 0 skipped (non-UTF-8 filename — rename to import), 1 errors\n\
         \nErrors:\n  /x — no"
    );
}

#[test]
fn scans_are_reported() {
    assert_eq!(scan_done(&vec![]), vec!["No new files found in inbox directories."]);
    assert_eq!(
        text(&scan_done(&vec!["/a".to_string(), "/b".to_string()])),
        "Found 2 unimported file(s):\n  /a\n  /b\n\nRun `kyoku import <path>` to import them."
    );
}

#[test]
fn albums_are_chosen_by_title() {
    let album = |id: i64, artist: Option<&str>| (id, "T".to_string(), artist.map(String::from));
    assert!(matches!(choose_album(&vec![]), AlbumChoice::Unknown));
    assert!(matches!(choose_album(&vec![album(4, Some("A"))]), AlbumChoice::One(4, c) if c == "A — T"));
    assert!(matches!(choose_album(&vec![album(4, Some(""))]), AlbumChoice::One(4, c) if c == "T"));
    match choose_album(&vec![album(1, None), album(2, Some("B"))]) {
        AlbumChoice::Several(lines) => assert_eq!(lines, vec!["  (unknown) — T", "  B — T"]),
        other => panic!("{other:?}"),
    }
}

#[test]
fn playback_is_reported() {
    let mut o = PlayOutcome {
        player_label: "mpv".to_string(),
        argv: vec!["mpv".to_string(), "/p.m3u8".to_string()],
        playlist_path: Some("/p.m3u8".to_string()),
        played: 2,
        skipped_missing: 1,
    };
    assert_eq!(
        text(&play_preview(&o)),
        "player:   mpv\nargv:     mpv /p.m3u8\nplaylist: /p.m3u8\nitems:    2 playable, 1 skipped (missing)"
    );
    assert_eq!(text(&playing(&o, "Mix")), "Playing: Mix (2 tracks) via mpv\n  (1 skipped: files missing)");
    o.played = 1;
    o.skipped_missing = 0;
    assert_eq!(text(&playing(&o, "Mix")), "Playing: Mix (1 track) via mpv");
}

#[test]
fn files_are_described() {
    let track = Track {
        id: None,
        album_id: None,
        title: "T".to_string(),
        artist: None,
        track_number: Some(3),
        disc_number: 1,
        duration_ms: Some(61_999),
        mbid: None,
        file_path: "/a.mp3".to_string(),
        file_format: AudioFormat::Mp3,
        bitrate: Some(320),
        sample_rate: None,
        tag_status: TagStatus::Unmatched,
        source_dir: None,
    };
    assert_eq!(
        text(&info(&track, &None)),
        "File:        /a.mp3\nFormat:      mp3\nTitle:       T\nArtist:      (none)\nTrack:       3\n\
         Disc:        1\nDuration:    1:01\nBitrate:     320 kbps\nStatus:      unmatched"
    );
    let tags = TagData {
        title: None,
        artist: None,
        album: Some("B".to_string()),
        album_artist: None,
        year: Some(1999),
        track_number: None,
        disc_number: None,
        genre: None,
        duration_ms: None,
        mb_release_id: None,
    };
    assert_eq!(
        text(&info(&track, &Some(tags))[4..8]),
        "Album:       B\nAlbum Artist: (none)\nYear:        1999\nGenre:       (none)"
    );
}

#[test]
fn places_are_listed() {
    let at = |inboxes: &[&str], error: Option<&str>, there: bool| {
        let list: Vec<String> = inboxes.iter().map(|s| s.to_string()).collect();
        text(&paths("/c", "/d", "/e", "/m", &list, &error.map(String::from), there))
    };
    assert_eq!(at(&[], None, true), "config:   /c\ndatabase: /d\ncache:    /e\nmusic:    /m\ninboxes:  (none)");
    assert!(at(&["/x", "/y"], None, true).ends_with("inboxes:  /x, /y"));
    assert!(at(&[], None, false).ends_with("\n\n(config file does not exist yet — using defaults)"));
    assert!(at(&[], Some("bad"), true)
        .ends_with("\n\n(config file exists but could not be read: bad — run `kyoku setup` to repair it)"));
}
