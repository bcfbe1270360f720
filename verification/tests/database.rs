use kyoku::error::KyokuError;
use kyoku::organizer::OrganizeFilter;
use kyoku::queries::{
    album_row, album_terms, album_where, append_members, collection_page, collection_positions,
    existing_track, field_update, filter_clause, fts_query, like_pattern, memberships,
    parse_leading_u32, path_is_same_or_child, retain_by_path, split_words, stored_cover, track_row,
    AlbumSort, CollectionPositions, CollectionTrackSortRow, FieldUpdate, FilterValue, MembershipRow,
    RawExisting, RawTrack,
};
use kyoku::rows::{AlbumRow, OrganizeTrackRow, TrackRow};
use kyoku::schema::{dedupe_collections_nocase, pending_steps, rewritten_path, Fold, SCHEMA_VERSION};

#[test]
fn parse_leading_u32_cases() {
    assert_eq!(parse_leading_u32("7"), Some(7));
    assert_eq!(parse_leading_u32("3/12"), Some(3));
    assert_eq!(parse_leading_u32(" 04 "), Some(4));
    assert_eq!(parse_leading_u32(""), None);
    assert_eq!(parse_leading_u32("A1"), None);
    assert_eq!(parse_leading_u32("99999999999999999999"), None, "overflow → NULL");
}

#[test]
fn update_track_fields_stores_numeric_columns_as_integers() {
    assert!(matches!(
        field_update("track_number", "3/12"),
        Some(FieldUpdate::Number { column: "track_number", value: Some(3) })
    ));
    assert!(matches!(
        field_update("disc_number", ""),
        Some(FieldUpdate::Number { column: "disc_number", value: None })
    ));
    assert!(matches!(
        field_update("title", "3/12"),
        Some(FieldUpdate::Text { column: "title", value }) if value == "3/12"
    ));
    assert!(field_update("file_path", "x").is_none());
}

fn sort_row(id: i64, pos: Option<u32>, track: Option<u32>) -> CollectionTrackSortRow {
    CollectionTrackSortRow {
        track: TrackRow {
            id,
            title: format!("T{id}"),
            artist: None,
            track_number: track,
            disc_number: 1,
            duration_ms: None,
            tag_status: String::new(),
            bitrate: None,
            file_format: String::new(),
            file_path: format!("/m/{id}"),
        },
        explicit_position: pos,
        album_id: None,
    }
}

fn ids(rows: &[TrackRow]) -> Vec<i64> {
    rows.iter().map(|r| r.id).collect()
}

#[test]
fn test_collection_positions_append_without_readd_consuming_position() {
    let first = append_members(&vec![], None, 0, &vec![1, 2]).unwrap();
    assert_eq!(first, vec![(1, 1), (2, 2)]);
    let second = append_members(&vec![1, 2], Some(2), 2, &vec![1, 3]).unwrap();
    assert_eq!(second, vec![(3, 3)]);
}

#[test]
fn appended_positions_follow_every_member() {
    assert_eq!(append_members(&vec![9], Some(40), 1, &vec![4, 4, 5]).unwrap(), vec![(4, 41), (5, 42)]);
    assert_eq!(append_members(&vec![1, 2, 3], None, 3, &vec![7]).unwrap(), vec![(7, 4)]);
    assert_eq!(append_members(&vec![], Some(u32::MAX - 1), 1, &vec![7]), None);
    assert_eq!(append_members(&vec![], Some(u32::MAX - 2), 1, &vec![7]).unwrap(), vec![(7, u32::MAX - 1)]);
    assert_eq!(append_members(&vec![], Some(u32::MAX), 1, &vec![]), None);
}

#[test]
fn test_collection_tracks_use_explicit_position_order() {
    let rows = vec![sort_row(1, Some(2), Some(1)), sort_row(2, Some(1), Some(2))];
    assert_eq!(ids(&collection_page(&rows, 0, 10)), vec![2, 1]);
}

#[test]
fn test_collection_tracks_legacy_cohesive_metadata_order() {
    let rows = vec![sort_row(1, None, Some(2)), sort_row(2, None, Some(1))];
    assert_eq!(ids(&collection_page(&rows, 0, 10)), vec![2, 1]);
}

#[test]
fn test_collection_tracks_legacy_scrambled_metadata_uses_add_order_not_title() {
    let mut rows = vec![sort_row(1, None, Some(7)), sort_row(2, None, Some(2))];
    rows[0].track.title = "Zebra".to_string();
    rows[1].track.title = "Apple".to_string();
    assert_eq!(ids(&collection_page(&rows, 0, 10)), vec![1, 2]);
}

#[test]
fn pages_are_cut_from_the_order() {
    let rows: Vec<CollectionTrackSortRow> = (1..=5).map(|i| sort_row(i, Some(6 - i as u32), None)).collect();
    assert_eq!(ids(&collection_page(&rows, 1, 2)), vec![4, 3]);
    assert_eq!(ids(&collection_page(&rows, 4, usize::MAX)), vec![1]);
    assert_eq!(ids(&collection_page(&rows, 9, 3)), Vec::<i64>::new());
    let positions = collection_positions(&rows);
    assert_eq!(positions[&1], 5);
    assert_eq!(positions[&5], 1);
}

#[test]
fn memberships_take_the_effective_position() {
    let rows = vec![sort_row(1, None, Some(2)), sort_row(2, None, Some(1))];
    let all = vec![CollectionPositions { collection_id: 8, by_track: collection_positions(&rows) }];
    let m = |id: i64, position: Option<u32>| MembershipRow {
        collection_id: id,
        name: format!("C{id}"),
        path_template: None,
        position,
        collection_file_path: Some("Collections/x.mp3".to_string()),
    };
    let got = memberships(vec![m(8, Some(77)), m(9, Some(5)), m(10, None)], 1, &all, "/music");
    let positions: Vec<u32> = got.iter().map(|g| g.effective_position).collect();
    assert_eq!(positions, vec![2, 5, 0]);
    assert_eq!(got[0].collection_file_path.as_deref(), Some("/music/Collections/x.mp3"));
}

#[test]
fn search_tracks_ignores_all_quote_fts_term() {
    assert_eq!(fts_query("\"\" \"\"\""), None);
    assert_eq!(fts_query("a\"b  c"), Some("\"ab\"* \"c\"*".to_string()));
    assert_eq!(fts_query("   "), None);
}

#[test]
fn like_fallback_escapes_wildcards_and_searches_album_titles() {
    assert_eq!(like_pattern("100%"), "%100\\%%");
    assert_eq!(album_terms(" a_b  花 "), vec!["%a\\_b%", "%花%"]);
    assert_eq!(album_where(0), "");
    assert_eq!(
        album_where(2),
        "(a.title LIKE ?1 ESCAPE '\\' OR a.album_artist LIKE ?1 ESCAPE '\\') AND \
         (a.title LIKE ?2 ESCAPE '\\' OR a.album_artist LIKE ?2 ESCAPE '\\')"
    );
}

#[test]
fn words_are_split_like_the_standard_library_does() {
    for s in ["", " ", "a", " a\tb\u{3000}c ", "x y", "\n\n"] {
        assert_eq!(split_words(s), s.split_whitespace().map(String::from).collect::<Vec<_>>());
    }
}

#[test]
fn album_orders_come_round() {
    let s = AlbumSort::Artist;
    assert_eq!(s.next(), AlbumSort::Album);
    assert_eq!(s.next().next(), AlbumSort::Year);
    assert_eq!(s.next().next().next(), AlbumSort::TrackCount);
    assert_eq!(s.next().next().next().next(), s);
    assert_eq!(AlbumSort::Year.order_clause(), "a.year");
}

#[test]
fn filters_become_conditions() {
    let c = filter_clause(&OrganizeFilter::Artist("A".to_string()));
    assert_eq!(c.condition, "(t.artist = ?1 OR a.album_artist = ?1)");
    assert!(matches!(c.value, FilterValue::Text(v) if v == "A"));
    assert!(matches!(filter_clause(&OrganizeFilter::AlbumId(4)).value, FilterValue::Number(4)));
    assert_eq!(filter_clause(&OrganizeFilter::Path("/m".to_string())).condition, "1=1");
    assert_eq!(filter_clause(&OrganizeFilter::Loose).condition, "t.album_id IS NULL");
}

fn organize_row(id: i64, path: &str) -> OrganizeTrackRow {
    OrganizeTrackRow {
        id,
        title: String::new(),
        artist: None,
        track_number: None,
        disc_number: 1,
        file_path: path.to_string(),
        album_id: None,
        album_title: None,
        album_artist: None,
        year: None,
        genre: None,
        label: None,
        disc_total: None,
        collections: vec![],
    }
}

#[test]
fn path_filters_respect_component_boundaries() {
    assert!(path_is_same_or_child("/m/Artist", "/m/Artist/"));
    assert!(path_is_same_or_child("/m/Artist/x", "/m/Artist"));
    assert!(!path_is_same_or_child("/m/Artist Backup/x", "/m/Artist"));
    let rows = || vec![organize_row(1, "/m/Artist/x"), organize_row(2, "/m/Artist Backup/x")];
    let kept = retain_by_path(&OrganizeFilter::Path("/m/Artist".to_string()), rows());
    assert_eq!(kept.len(), 1);
    assert_eq!(kept[0].id, 1);
    assert_eq!(retain_by_path(&OrganizeFilter::All, rows()).len(), 2);
}

fn raw(path: Option<&str>) -> RawTrack {
    RawTrack {
        id: 1,
        title: "T".to_string(),
        artist: None,
        track_number: None,
        disc_number: None,
        duration_ms: Some(-1),
        tag_status: None,
        bitrate: None,
        file_format: None,
        file_path: path.map(String::from),
    }
}

#[test]
fn rows_are_resolved_and_filled() {
    let t = track_row(raw(Some("a/b.mp3")), "/music");
    assert_eq!(t.file_path, "/music/a/b.mp3");
    assert_eq!(t.disc_number, 1);
    assert_eq!(t.duration_ms, Some(u64::MAX));
    assert_eq!(track_row(raw(None), "/music").file_path, "");
    let e = existing_track(
        RawExisting {
            track: raw(Some("/abs.mp3")),
            album_id: Some(3),
            album_title: None,
            file_size: Some(9),
            mbid: Some("m".to_string()),
        },
        "/music",
    );
    assert_eq!((e.file_path.as_str(), e.album_id, e.file_size), ("/abs.mp3", Some(3), Some(9)));
    let album = AlbumRow {
        id: 1,
        title: "A".to_string(),
        album_artist: None,
        year: None,
        track_count: 0,
        formats: String::new(),
        total_duration_ms: 0,
        mbid: None,
        label: None,
        genre: None,
        cover_art_path: Some("A/cover.jpg".to_string()),
    };
    let a = album_row(album, Some("mp3".to_string()), "/music");
    assert_eq!(a.cover_art_path.as_deref(), Some("/music/A/cover.jpg"));
    assert_eq!(a.formats, "mp3");
    assert_eq!(stored_cover("", "/music", &None, &None), None);
    assert_eq!(stored_cover("/music/A/c.jpg", "/music", &None, &None).as_deref(), Some("A/c.jpg"));
}

#[test]
fn test_initialize_fresh_db() {
    let steps = pending_steps(0).unwrap();
    assert_eq!(steps, (1..=SCHEMA_VERSION).collect::<Vec<i32>>());
    assert_eq!(*steps.last().unwrap(), SCHEMA_VERSION);
}

#[test]
fn test_initialize_idempotent() {
    assert!(pending_steps(SCHEMA_VERSION).unwrap().is_empty());
}

#[test]
fn initialize_rejects_newer_schema() {
    let err = pending_steps(99).unwrap_err();
    assert!(matches!(&err, KyokuError::Config(m) if m.contains("v99") && m.contains("newer")));
}

#[test]
fn migration_starts_where_it_stopped() {
    assert_eq!(pending_steps(6).unwrap(), vec![7, 8]);
    assert_eq!(pending_steps(-4).unwrap().len(), 8);
}

#[test]
fn v8_dedupes_collections_and_enforces_nocase_unique_names() {
    let row = |id: i64, name: &str| (id, name.to_string());
    let folds = dedupe_collections_nocase(&vec![row(1, "Mix"), row(2, "mix"), row(3, "Other"), row(4, "MIX")]);
    assert_eq!(folds, vec![Fold { keep: 1, drop: 2 }, Fold { keep: 1, drop: 4 }]);
}

#[test]
fn v7_rewrites_absolute_paths_under_music_dir() {
    let rewrite = |p: &str, m: &str| rewritten_path(p, m, &None, &None);
    assert_eq!(rewrite("/home/u/Music/A/01.mp3", "/home/u/Music").as_deref(), Some("A/01.mp3"));
    assert_eq!(rewrite("/elsewhere/x.mp3", "/home/u/Music"), None);
    assert_eq!(rewrite("A/01.mp3", "/home/u/Music"), None);
    assert_eq!(rewrite("/home/u/Music/A/01.mp3", ""), None);
}
