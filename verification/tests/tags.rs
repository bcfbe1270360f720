use kyoku::error::KyokuError;
use kyoku::importer::is_audio;
use kyoku::models::{AudioFormat, TagStatus};
use kyoku::tagger::{
    apply_changes, check_readable, display_name_for, group_for, humanize, label_for_name,
    read_all_frames, tag_data, tmp_path_for, track_of, FrameGroup, TagChanges, TagValue,
};
use lofty::tag::{Accessor, ItemKey, ItemValue, Tag, TagItem, TagType};

fn tagged() -> Tag {
    let mut tag = Tag::new(TagType::Id3v2);
    tag.push(TagItem::new(ItemKey::TrackTitle, ItemValue::Text("Old".into())));
    tag.push(TagItem::new(ItemKey::TrackArtist, ItemValue::Text("Someone".into())));
    tag
}

fn set(key: ItemKey, value: &str) -> TagChanges {
    let mut changes = TagChanges::default();
    changes.set.push((key, TagValue::Text(value.into())));
    changes
}

#[test]
fn test_audio_format_from_extension() {
    assert_eq!(AudioFormat::from_extension("mp3"), AudioFormat::Mp3);
    assert_eq!(AudioFormat::from_extension("FLAC"), AudioFormat::Flac);
    assert_eq!(AudioFormat::from_extension("m4a"), AudioFormat::M4a);
    assert_eq!(AudioFormat::from_extension("ogg"), AudioFormat::Ogg);
    assert_eq!(AudioFormat::from_extension("opus"), AudioFormat::Opus);
    assert!(!AudioFormat::from_extension("txt").is_supported());
}

#[test]
fn test_read_nonexistent_file() {
    let result = check_readable("/nonexistent/file.mp3", false);
    assert!(result.is_err());
    assert!(matches!(check_readable("/x/a.txt", true), Err(KyokuError::UnsupportedFormat { ext }) if ext == "txt"));
    assert!(matches!(check_readable("/x/a.MP3", true), Ok(AudioFormat::Mp3)));
}

#[test]
fn write_tags_roundtrip_title() {
    let mut tag = tagged();
    let report = apply_changes(&mut tag, &set(ItemKey::TrackTitle, "New Title"));
    assert_eq!(report.fields_written, 1);
    assert_eq!(tag_data(Some(&tag), 0).title.as_deref(), Some("New Title"));
}

#[test]
fn write_tags_unset_removes_frame() {
    let mut tag = tagged();
    let mut changes = TagChanges::default();
    changes.unset.push(ItemKey::Genre);
    apply_changes(&mut tag, &changes);

    apply_changes(&mut tag, &set(ItemKey::Genre, "Rock"));
    assert_eq!(tag_data(Some(&tag), 0).genre.as_deref(), Some("Rock"));

    let mut changes = TagChanges::default();
    changes.unset.push(ItemKey::Genre);
    let report = apply_changes(&mut tag, &changes);
    assert_eq!(report.fields_removed, 1);
    assert!(tag_data(Some(&tag), 0).genre.is_none());
}

#[test]
fn read_all_frames_returns_sorted_groups() {
    let mut tag = tagged();
    let mut changes = set(ItemKey::Genre, "Experimental");
    changes.set.push((ItemKey::ReplayGainAlbumGain, TagValue::Text("-7.00 dB".into())));
    apply_changes(&mut tag, &changes);

    let frames = read_all_frames(&tag);

    let g = frames.iter().find(|f| f.key == ItemKey::Genre);
    assert!(g.is_some(), "Genre frame missing after write");
    assert_eq!(g.unwrap().group, FrameGroup::Standard);
    assert_eq!(g.unwrap().values, vec!["Experimental"]);

    let rg = frames.iter().find(|f| f.key == ItemKey::ReplayGainAlbumGain);
    assert!(rg.is_some(), "ReplayGain frame missing after write");
    assert_eq!(rg.unwrap().group, FrameGroup::ReplayGain);

    let positions: Vec<u8> = frames.iter().map(|f| f.group.sort_index()).collect();
    let mut sorted = positions.clone();
    sorted.sort();
    assert_eq!(positions, sorted);
}

#[test]
fn write_tags_noop_when_empty_changes() {
    let mut tag = tagged();
    let before = read_all_frames(&tag).len();
    assert!(TagChanges::default().is_empty());
    let report = apply_changes(&mut tag, &TagChanges::default());
    assert_eq!(report.fields_written, 0);
    assert_eq!(read_all_frames(&tag).len(), before);
}

#[test]
fn write_tags_preserves_other_frames() {
    let mut tag = tagged();
    let before_artist = tag_data(Some(&tag), 0).artist;
    apply_changes(&mut tag, &set(ItemKey::TrackTitle, "Something Else"));

    let after = tag_data(Some(&tag), 0);
    assert_eq!(after.title.as_deref(), Some("Something Else"));
    assert_eq!(after.artist, before_artist);
}

#[test]
fn empty_texts_clear_a_frame() {
    let mut tag = tagged();
    let report = apply_changes(&mut tag, &set(ItemKey::TrackTitle, ""));
    assert_eq!((report.fields_written, report.fields_removed), (0, 1));
    assert!(tag_data(Some(&tag), 0).title.is_none());
}

#[test]
fn keys_that_a_format_lacks_are_written_all_the_same() {
    let mut tag = Tag::new(TagType::Id3v1);
    let report = apply_changes(&mut tag, &set(ItemKey::ReplayGainAlbumGain, "-1 dB"));
    assert_eq!(report.fields_written, 1);
    assert_eq!(read_all_frames(&tag)[0].values, vec!["-1 dB"]);
}

#[test]
fn several_values_share_a_frame() {
    let mut tag = Tag::new(TagType::VorbisComments);
    let mut changes = TagChanges::default();
    let values = vec!["A".to_string(), String::new(), "B".to_string()];
    changes.set.push((ItemKey::TrackArtist, TagValue::MultiText(values)));
    apply_changes(&mut tag, &changes);
    let frames = read_all_frames(&tag);
    assert_eq!(frames.len(), 1);
    assert_eq!(frames[0].values, vec!["A", "B"]);
}

#[test]
fn tag_fields_agree_with_their_accessors() {
    let mut tag = Tag::new(TagType::VorbisComments);
    for (key, value) in [
        (ItemKey::TrackTitle, "T"),
        (ItemKey::TrackArtist, "A"),
        (ItemKey::AlbumTitle, "L"),
        (ItemKey::AlbumArtist, "AA"),
        (ItemKey::Year, "1999"),
        (ItemKey::TrackNumber, "07"),
        (ItemKey::DiscNumber, "x"),
        (ItemKey::Genre, "G"),
        (ItemKey::Genre, "H"),
        (ItemKey::MusicBrainzReleaseId, "id"),
    ] {
        assert!(tag.push(TagItem::new(key, ItemValue::Text(value.into()))));
    }
    let d = tag_data(Some(&tag), 1234);
    assert_eq!(d.title.as_deref(), tag.title().as_deref());
    assert_eq!(d.artist.as_deref(), tag.artist().as_deref());
    assert_eq!(d.album.as_deref(), tag.album().as_deref());
    assert_eq!(d.album_artist.as_deref(), tag.get_string(ItemKey::AlbumArtist));
    assert_eq!(d.year, Some(1999));
    assert_eq!(d.track_number, tag.track());
    assert_eq!(d.disc_number, tag.disk());
    assert_eq!(d.genre.as_deref(), tag.genre().as_deref());
    assert_eq!(d.duration_ms, Some(1234));
    assert_eq!(d.mb_release_id.as_deref(), Some("id"));

    let mut located = Tag::new(TagType::VorbisComments);
    located.push_unchecked(TagItem::new(ItemKey::TrackTitle, ItemValue::Locator("http://x".into())));
    located.push_unchecked(TagItem::new(ItemKey::Comment, ItemValue::Binary(vec![1])));
    assert_eq!(tag_data(Some(&located), 0).title, None);
    assert_eq!(located.title(), None);
    assert_eq!(read_all_frames(&located).len(), 1);
    assert!(tag_data(None, 5).title.is_none());
}

#[test]
fn humanize_splits_camel_case() {
    assert_eq!(humanize("MusicBrainzReleaseId"), "Music Brainz Release Id");
    assert_eq!(humanize("Year"), "Year");
}

#[test]
fn frames_are_named_and_grouped() {
    assert_eq!(display_name_for(ItemKey::TrackTitle), label_for_name("TrackTitle"));
    assert_eq!(group_for("ReplayGainAlbumGain"), FrameGroup::ReplayGain);
    assert_eq!(group_for("MusicBrainzReleaseId"), FrameGroup::MusicBrainz);
    assert_eq!(group_for("Genre"), FrameGroup::Standard);
}

#[test]
fn copies_are_written_beside_the_file() {
    assert_eq!(tmp_path_for("/m/a b.flac"), "/m/a b.kyoku-tmp.flac");
    assert_eq!(tmp_path_for("/m/x"), "/m/x.kyoku-tmp.tmp");
    assert!(is_audio("/m/a b.flac"));
    assert!(!is_audio(&tmp_path_for("/m/a b.flac")));
}

#[test]
fn tracks_are_titled_by_their_file_where_untitled() {
    let t = track_of("/m/Song.mp3", AudioFormat::Mp3, tag_data(None, 90), Some(320), Some(44100));
    assert_eq!(t.title, "Song");
    assert_eq!(t.disc_number, 1);
    assert_eq!(t.duration_ms, Some(90));
    assert_eq!(t.source_dir.as_deref(), Some("/m"));
    assert_eq!(t.tag_status, TagStatus::Unmatched);
}
