use kyoku::template::{render_path, sanitize_path_component, TemplateVars};

#[test]
fn basic_template() {
    let vars = TemplateVars {
        album_artist: "Radiohead".to_string(),
        album: "OK Computer".to_string(),
        year: "1997".to_string(),
        title: "Paranoid Android".to_string(),
        track: 2,
        disc: 1,
        ext: "flac".to_string(),
        ..Default::default()
    };
    let path = render_path("{album_artist}/{album} ({year})/{track:02} {title}.{ext}", &vars);
    assert_eq!(path, "Radiohead/OK Computer (1997)/02 Paranoid Android.flac");
}

#[test]
fn missing_vars_use_fallbacks() {
    let vars = TemplateVars {
        title: "Song".to_string(),
        track: 1,
        ext: "mp3".to_string(),
        ..Default::default()
    };
    let path = render_path("{album_artist}/{album}/{track:02} {title}.{ext}", &vars);
    assert_eq!(path, "Unknown/Unknown Album/01 Song.mp3");
}

#[test]
fn album_artist_falls_back_to_artist() {
    let vars = TemplateVars {
        artist: "Björk".to_string(),
        album: "Homogenic".to_string(),
        title: "Joga".to_string(),
        track: 1,
        ext: "flac".to_string(),
        ..Default::default()
    };
    let path = render_path("{album_artist}/{title}.{ext}", &vars);
    assert_eq!(path, "Björk/Joga.flac");
}

#[test]
fn sanitizes_dangerous_chars() {
    let vars = TemplateVars {
        artist: "AC/DC".to_string(),
        title: "What's Next?".to_string(),
        ext: "mp3".to_string(),
        ..Default::default()
    };
    let path = render_path("{artist}/{title}.{ext}", &vars);
    assert_eq!(path, "AC_DC/What's Next_.mp3");
}

#[test]
fn cjk_characters_preserved() {
    let vars = TemplateVars {
        album_artist: "初音ミク".to_string(),
        album: "VOCALOID BEST".to_string(),
        title: "千本桜".to_string(),
        track: 3,
        ext: "mp3".to_string(),
        ..Default::default()
    };
    let path = render_path("{album_artist}/{album}/{track:02} {title}.{ext}", &vars);
    assert_eq!(path, "初音ミク/VOCALOID BEST/03 千本桜.mp3");
}

#[test]
fn format_specifiers() {
    let vars = TemplateVars {
        track: 7,
        disc: 2,
        ..Default::default()
    };
    assert_eq!(render_path("{disc:0}-{track:02}", &vars), "2-07");
}

#[test]
fn collection_positions_are_padded() {
    let vars = TemplateVars {
        collection: "Mix".to_string(),
        position: 3,
        album_artist: "A".to_string(),
        title: "T".to_string(),
        ext: "mp3".to_string(),
        ..Default::default()
    };
    assert_eq!(
        render_path("Collections/{collection}/{position:02} {album_artist} - {title}.{ext}", &vars),
        "Collections/Mix/03 A - T.mp3"
    );
}

#[test]
fn components_are_made_safe() {
    for bad in ["..", ".", "a/b", "a\\b", "con", "CON.txt", "trailing. ", "", "   "] {
        let s = sanitize_path_component(bad);
        assert!(!s.contains('/'), "{bad:?} -> {s:?}");
        assert_ne!(s, "..");
        assert_ne!(s, ".");
    }
}
