use kyoku::paths::{
    components, extension, file_name, file_stem, from_db_path, is_absolute, is_within, join, parent,
    path_is_strictly_inside, same_path, strip_base, to_db_path,
};
use std::path::{Path, PathBuf};

fn stored(p: &str, music: &str) -> String {
    to_db_path(p, music, &None, &None)
}

#[test]
fn inside_music_dir_strips_to_relative() {
    let p = "/home/user/Music/Artist/Album/01.mp3";
    assert_eq!(stored(p, "/home/user/Music"), "Artist/Album/01.mp3");
}

#[test]
fn outside_music_dir_kept_absolute() {
    let p = "/home/user/Downloads/x.mp3";
    assert_eq!(stored(p, "/home/user/Music"), "/home/user/Downloads/x.mp3");
}

#[test]
fn equal_to_music_dir_kept_absolute() {
    let music = "/home/user/Music";
    assert_eq!(stored(music, music), "/home/user/Music");
}

#[test]
fn boundary_prefix_not_confused_with_sibling_dir() {
    let p = "/home/user/Music Backup/Artist/01.mp3";
    assert_eq!(stored(p, "/home/user/Music"), "/home/user/Music Backup/Artist/01.mp3");
}

#[test]
fn relative_input_passes_through() {
    assert_eq!(stored("Artist/01.mp3", "/home/user/Music"), "Artist/01.mp3");
}

#[test]
fn from_db_relative_is_joined() {
    assert_eq!(
        from_db_path("Artist/Album/01.mp3", "/home/user/Music"),
        "/home/user/Music/Artist/Album/01.mp3"
    );
}

#[test]
fn from_db_absolute_passes_through() {
    assert_eq!(from_db_path("/elsewhere/x.mp3", "/home/user/Music"), "/elsewhere/x.mp3");
}

#[test]
fn round_trip_under_music_dir() {
    let music = "/home/user/Music";
    let abs = "/home/user/Music/A/B.mp3";
    assert_eq!(from_db_path(&stored(abs, music), music), abs);
}

#[test]
fn round_trip_outside_music_dir() {
    let music = "/home/user/Music";
    let abs = "/tmp/inbox/x.mp3";
    assert_eq!(from_db_path(&stored(abs, music), music), abs);
}

#[test]
fn rename_music_dir_round_trip() {
    let s = stored("/home/user/Music/Artist/01.mp3", "/home/user/Music");
    assert_eq!(from_db_path(&s, "/mnt/external/Music"), "/mnt/external/Music/Artist/01.mp3");
}

#[test]
fn canonical_fallback_strips_paths_when_music_dir_is_symlink() {
    // `link_music` is a link to `real_music`, so both resolve to the same place.
    let track = "/tmp/t/real_music/Artist/Album/01.flac";
    assert_eq!(
        to_db_path(
            track,
            "/tmp/t/link_music",
            &Some(track.to_string()),
            &Some("/tmp/t/real_music".to_string()),
        ),
        "Artist/Album/01.flac"
    );
    assert_eq!(to_db_path(track, "/tmp/t/link_music", &None, &None), track);
}

#[test]
fn stored_form_is_stable() {
    for p in ["/m/a/b.mp3", "/m", "/x/y", "a/b"] {
        let once = stored(p, "/m");
        assert_eq!(stored(&once, "/m"), once);
    }
}

const SAMPLES: [&str; 22] = [
    "", "/", "a", "a/b", "/a/b/", "//a//b", "./a", "a/./b", "a/..", "..", ".", "/.", "/..", "a/.",
    "x.mp3", "/d/x.tar.gz", ".hidden", "/d/.hidden", "a.", "日本/曲.flac", "a b/c d.e", "/a/../b.c",
];

#[test]
fn paths_agree_with_the_standard_library() {
    for s in SAMPLES {
        let p = Path::new(s);
        let comps: Vec<String> =
            p.components().map(|c| c.as_os_str().to_str().unwrap().to_string()).collect();
        assert_eq!(components(s), comps, "{s:?}");
        assert_eq!(is_absolute(s), p.is_absolute(), "{s:?}");
        assert_eq!(parent(s), p.parent().map(|x| x.to_str().unwrap().to_string()), "{s:?}");
        assert_eq!(file_name(s), p.file_name().map(|x| x.to_str().unwrap().to_string()), "{s:?}");
        assert_eq!(file_stem(s), p.file_stem().map(|x| x.to_str().unwrap().to_string()), "{s:?}");
        assert_eq!(extension(s), p.extension().map(|x| x.to_str().unwrap().to_string()), "{s:?}");
        for t in SAMPLES {
            let q = Path::new(t);
            assert_eq!(PathBuf::from(join(s, t)), p.join(q), "{s:?} {t:?}");
            assert_eq!(join(s, t), p.join(q).to_str().unwrap(), "{s:?} {t:?}");
            assert_eq!(is_within(s, t), p.starts_with(q), "{s:?} {t:?}");
            assert_eq!(same_path(s, t), p == q, "{s:?} {t:?}");
            assert_eq!(
                strip_base(s, t),
                p.strip_prefix(q).ok().map(|x| x.to_str().unwrap().to_string()),
                "{s:?} {t:?}"
            );
        }
    }
}

#[test]
fn strictly_inside_excludes_the_root() {
    let roots = vec!["/music".to_string(), "/inbox".to_string()];
    assert!(path_is_strictly_inside("/music/a", &roots));
    assert!(path_is_strictly_inside("/inbox/x/y", &roots));
    assert!(!path_is_strictly_inside("/music", &roots));
    assert!(!path_is_strictly_inside("/music2/a", &roots));
}
