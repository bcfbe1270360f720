use kyoku::relocator::{escape_like, plan_relocate};

fn rows(paths: &[&str]) -> Vec<(i64, String)> {
    paths.iter().enumerate().map(|(i, p)| (i as i64 + 1, p.to_string())).collect()
}

#[test]
fn plan_relocate_returns_only_paths_under_old_prefix() {
    let rows = rows(&["/old/music/artist/a.mp3", "/old/music/artist/b.mp3", "/somewhere/else/c.mp3"]);
    let plan = plan_relocate(&rows, "/old/music", "/new/library");

    assert_eq!(plan.len(), 2);
    let ids: Vec<i64> = plan.iter().map(|(id, _, _)| *id).collect();
    assert!(ids.contains(&1));
    assert!(ids.contains(&2));
    for (_, old, new) in &plan {
        assert!(old.starts_with("/old/music"));
        assert!(new.starts_with("/new/library"));
        assert_eq!(&new[..], &format!("/new/library{}", &old["/old/music".len()..]));
    }
}

#[test]
fn apply_relocate_updates_all_matching_paths_atomically() {
    let rows = rows(&["/old/music/x/a.mp3", "/old/music/x/b.mp3", "/elsewhere/c.mp3"]);
    let plan = plan_relocate(&rows, "/old/music", "/new/library");
    assert_eq!(plan.len(), 2);
    assert_eq!(plan[0].2, "/new/library/x/a.mp3");
    assert_eq!(plan[1].2, "/new/library/x/b.mp3");
}

#[test]
fn plan_relocate_rejects_overlapping_prefix() {
    let rows = rows(&["/old/music/a.mp3", "/old/music_backup/b.mp3", "/old/musicalbum.mp3"]);
    let plan = plan_relocate(&rows, "/old/music", "/new/library");

    assert_eq!(plan.len(), 1);
    assert_eq!(plan[0].0, 1);
}

#[test]
fn plan_relocate_trims_trailing_slashes() {
    let rows = rows(&["/old/music/a.mp3"]);
    let with_slash = plan_relocate(&rows, "/old/music/", "/new/library/");
    assert_eq!(with_slash.len(), 1);
    assert_eq!(with_slash[0].0, 1);
    assert_eq!(with_slash[0].2, "/new/library/a.mp3");
}

#[test]
fn plan_relocate_escapes_like_wildcards() {
    let rows = rows(&["/old/_usic/a.mp3", "/old/music/b.mp3"]);
    let plan = plan_relocate(&rows, "/old/_usic", "/new/library");

    assert_eq!(plan.len(), 1);
    assert_eq!(plan[0].0, 1);
}

#[test]
fn wildcards_are_escaped() {
    assert_eq!(escape_like("100%_\\x"), "100\\%\\_\\\\x");
}

#[test]
fn relocation_goes_back() {
    let there = plan_relocate(&rows(&["/a/x/1.mp3"]), "/a", "/b");
    let back = plan_relocate(&vec![(1, there[0].2.clone())], "/b", "/a");
    assert_eq!(back[0].2, "/a/x/1.mp3");
}
