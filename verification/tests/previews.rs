use kyoku::organize_preview::{build_details, build_summary};
use kyoku::organizer::{FileMove, FileOrphanEntry, OrganizePlan};

fn move_entry(from: &str, to: &str) -> FileMove {
    FileMove { track_id: 1, from: from.to_string(), to: to.to_string(), also_collection: None }
}

fn orphan_entry(id: i64, path: &str) -> FileOrphanEntry {
    FileOrphanEntry {
        id,
        path: path.to_string(),
        title: Some("Song".into()),
        artist: Some("Artist".into()),
        album_title: Some("Album".into()),
        reason: "replaced by duplicate during import".into(),
    }
}

#[test]
fn details_tag_move_when_destination_matches_orphan_and_hide_it_from_orphan_list() {
    let mut plan = OrganizePlan::default();
    let overlap = "/music/Artist/Album (2024)/03 Song.mp3";
    let dangling = "/music/Artist/Album (2024)/old_only.mp3";
    plan.moves.push(move_entry("/inbox/03 Song.mp3", overlap));
    plan.file_orphans.push(orphan_entry(1, overlap));
    plan.file_orphans.push(orphan_entry(2, dangling));

    let preview = build_details(&plan, &vec![]);

    assert_eq!(preview.moves.len(), 1);
    assert!(
        preview.moves[0].overwrites_orphan,
        "move whose destination matches an orphan path must be tagged"
    );
    assert_eq!(preview.file_orphans.len(), 1);
    assert_eq!(
        preview.file_orphans[0].path, dangling,
        "only the orphan without a matching move should remain"
    );
    assert_eq!(preview.stats.file_orphans, 1, "dangling count");
    assert_eq!(preview.stats.file_orphans_absorbed, 1, "absorbed count");
}

#[test]
fn details_all_orphans_dangling_when_no_move_overlaps() {
    let mut plan = OrganizePlan::default();
    plan.moves.push(move_entry("/inbox/a.mp3", "/music/Artist/Album/new.mp3"));
    plan.file_orphans.push(orphan_entry(1, "/music/other/leftover.mp3"));

    let preview = build_details(&plan, &vec![]);

    assert!(!preview.moves[0].overwrites_orphan);
    assert_eq!(preview.file_orphans.len(), 1);
    assert_eq!(preview.stats.file_orphans, 1);
    assert_eq!(preview.stats.file_orphans_absorbed, 0);
}

#[test]
fn summary_stats_split_matches_details_split() {
    let mut plan = OrganizePlan::default();
    let overlap = "/music/Artist/Album/01.mp3";
    plan.moves.push(move_entry("/inbox/01.mp3", overlap));
    plan.file_orphans.push(orphan_entry(1, overlap));
    plan.file_orphans.push(orphan_entry(2, "/music/dangler.mp3"));

    let details = build_details(&plan, &vec![]);
    let summary = build_summary(&plan, &vec![]);

    assert_eq!(summary.stats.file_orphans, details.stats.file_orphans);
    assert_eq!(summary.stats.file_orphans_absorbed, details.stats.file_orphans_absorbed);
}

#[test]
fn summary_groups_moves_by_directory() {
    let mut plan = OrganizePlan::default();
    plan.moves.push(move_entry("/inbox/a.mp3", "/music/X/a.mp3"));
    plan.moves.push(move_entry("/inbox/b.mp3", "/music/X/b.mp3"));
    plan.moves.push(move_entry("/music/Y/old.mp3", "/music/Y/new.mp3"));
    plan.skipped = 4;
    let summary = build_summary(&plan, &vec![]);
    assert_eq!(summary.dir_moves.len(), 1);
    assert_eq!(summary.dir_moves[0].from_dir, "/inbox");
    assert_eq!(summary.dir_moves[0].to_dir, "/music/X");
    assert_eq!(summary.dir_moves[0].count, 2);
    assert_eq!(summary.in_place_renames.len(), 1);
    assert_eq!(summary.in_place_renames[0].dir, "/music/Y");
    assert_eq!(summary.stats.moves_total, 3);
    assert_eq!(summary.stats.skipped, 4);
    let details = build_details(&plan, &vec![]);
    assert!(details.moves[2].renamed);
    assert!(!details.moves[0].renamed);
}
