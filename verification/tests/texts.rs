use kyoku::models::AudioFormat;
use kyoku::organizer::{cleanup_roots, file_delete_roots};
use kyoku::relocator::{escape_like, relocate};
use kyoku::settings::LibrarySettings;
use kyoku::text::{
    ascii_lower_text, join_texts, number_text, parse_unsigned, replace_text, signed_text, split_on,
    text_rank, trim, whitespace,
};

#[test]
fn whitespace_is_that_of_the_standard_library() {
    for c in '\0'..=char::MAX {
        assert_eq!(whitespace(c), c.is_whitespace(), "{c:?}");
    }
}

#[test]
fn texts_agree_with_the_standard_library() {
    let samples = ["", " ", "a", "\u{3000}花 冷え\t", "x//y", "//", "ÄB c", "\u{85}z\u{a0}"];
    for a in samples {
        assert_eq!(trim(a), a.trim());
        assert_eq!(ascii_lower_text(a), a.to_ascii_lowercase());
        assert_eq!(split_on(a, '/'), a.split('/').map(String::from).collect::<Vec<_>>());
        assert_eq!(replace_text(a, "/", "::"), a.replace('/', "::"));
        for b in samples {
            assert_eq!(text_rank(a, b) < 0, a < b);
            assert_eq!(text_rank(a, b) == 0, a == b);
        }
    }
    let parts: Vec<String> = samples.iter().map(|s| s.to_string()).collect();
    assert_eq!(join_texts(&parts, "; "), samples.join("; "));
}

#[test]
fn numbers_agree_with_the_standard_library() {
    for n in [0, 7, 10, 99, 100, u64::MAX] {
        assert_eq!(number_text(n), n.to_string());
        assert_eq!(parse_unsigned(&n.to_string(), u64::MAX), Some(n));
    }
    for n in [0, -1, 42, i64::MIN, i64::MAX] {
        assert_eq!(signed_text(n), n.to_string());
    }
    for s in ["", "+", "-1", "+7", "007", "1x", "4294967296", "18446744073709551616"] {
        assert_eq!(parse_unsigned(s, u32::MAX as u64), s.parse::<u32>().ok().map(u64::from), "{s}");
    }
}

#[test]
fn formats_are_told_by_any_spelling_of_the_extension() {
    assert!(matches!(AudioFormat::from_extension("MP3"), AudioFormat::Mp3));
    assert!(matches!(AudioFormat::from_extension("FlAc"), AudioFormat::Flac));
    assert!(matches!(AudioFormat::from_extension("TXT"), AudioFormat::Unknown(e) if e == "txt"));
}

#[test]
fn files_are_deleted_only_below_the_music_directory() {
    let mut lib = LibrarySettings::with_dirs("/m".to_string(), "/d".to_string());
    lib.inbox_dirs = vec!["/i".to_string()];
    assert_eq!(file_delete_roots(&lib), vec!["/m"]);
    assert_eq!(cleanup_roots(&lib), vec!["/m", "/i"]);
}

#[test]
fn stored_formats_read_back() {
    for ext in ["mp3", "flac", "ogg", "m4a", "wav", "wma", "ape", "opus", "aiff", "xyz"] {
        let format = AudioFormat::from_extension(ext);
        assert_eq!(AudioFormat::from_extension(format.as_str()), format);
    }
}

#[test]
fn relocated_paths_can_be_brought_back() {
    for path in ["/old/music/a/b.mp3", "/old/music"] {
        let there = relocate(path, "/old/music/", "/new").unwrap();
        assert_eq!(relocate(&there, "/new", "/old/music").as_deref(), Some(path));
    }
    assert_eq!(relocate("/old/music_backup/x", "/old/music", "/new"), None);
    assert_eq!(escape_like("100%_\\x"), "100\\%\\_\\\\x");
}
