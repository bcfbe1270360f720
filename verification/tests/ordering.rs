use kyoku::collection_order::{effective_positions, has_cohesive_metadata, ordered_indices, CollectionOrderItem};

fn item(
    index: usize,
    pos: Option<u32>,
    album_id: Option<i64>,
    track: Option<u32>,
) -> CollectionOrderItem {
    CollectionOrderItem {
        index,
        track_id: index as i64 + 10,
        explicit_position: pos,
        disc_number: 1,
        track_number: track,
        album_id,
        album_key: None,
        added_order: index,
        title: format!("t{index}"),
    }
}

#[test]
fn explicit_positions_win() {
    let items = vec![
        item(0, Some(3), None, Some(1)),
        item(1, Some(1), None, Some(2)),
    ];
    assert_eq!(ordered_indices(&items), vec![1, 0]);
}

#[test]
fn same_album_uses_track_numbers_even_for_partial_album() {
    let items = vec![
        item(0, None, Some(7), Some(9)),
        item(1, None, Some(7), Some(5)),
    ];
    assert_eq!(ordered_indices(&items), vec![1, 0]);
}

#[test]
fn dense_albumless_metadata_uses_track_numbers() {
    let items = vec![item(0, None, None, Some(2)), item(1, None, None, Some(1))];
    assert_eq!(ordered_indices(&items), vec![1, 0]);
}

#[test]
fn dense_mixed_album_metadata_uses_added_order() {
    let items = vec![
        item(0, None, Some(10), Some(2)),
        item(1, None, Some(11), Some(1)),
    ];
    assert_eq!(ordered_indices(&items), vec![0, 1]);
}

#[test]
fn scrambled_albumless_metadata_uses_added_order() {
    let items = vec![item(0, None, None, Some(7)), item(1, None, None, Some(2))];
    assert_eq!(ordered_indices(&items), vec![0, 1]);
}

#[test]
fn duplicate_or_missing_track_numbers_use_added_order() {
    let dupes = vec![item(0, None, None, Some(1)), item(1, None, None, Some(1))];
    assert_eq!(ordered_indices(&dupes), vec![0, 1]);

    let missing = vec![item(0, None, None, None), item(1, None, None, Some(1))];
    assert_eq!(ordered_indices(&missing), vec![0, 1]);
}

#[test]
fn nothing_to_order() {
    assert_eq!(ordered_indices(&[]), Vec::<usize>::new());
    assert_eq!(effective_positions(&[]), vec![]);
}

#[test]
fn positions_follow_the_inferred_order() {
    let items = vec![
        item(0, None, Some(7), Some(9)),
        item(1, None, Some(7), Some(5)),
        item(2, None, Some(7), Some(7)),
    ];
    assert!(has_cohesive_metadata(&items));
    assert_eq!(effective_positions(&items), vec![(0, 3), (1, 1), (2, 2)]);
}

#[test]
fn stored_position_is_kept() {
    let items = vec![item(0, Some(42), None, Some(1)), item(1, None, None, Some(2))];
    let positions = effective_positions(&items);
    assert_eq!(positions[0], (0, 42));
}

#[test]
fn albums_by_key_are_told_apart() {
    let mut a = item(0, None, None, Some(2));
    let mut b = item(1, None, None, Some(1));
    a.album_key = Some("one".to_string());
    b.album_key = Some("two".to_string());
    assert_eq!(ordered_indices(&[a, b]), vec![0, 1]);
}
