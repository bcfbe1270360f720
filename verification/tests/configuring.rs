use kyoku::settings::{
    cache_dir, config_dir, config_file, database_file, default_data_dir, default_music_dir,
    expand_tilde, floor_rate_limit, library_dir_fault, CoverArtSize, NameScriptPreference,
    OrganizeOperation, Settings,
};
use kyoku::setup::{
    add_dir, ask_dir, render_config, script_chosen, script_index, size_chosen, size_index,
    theme_chosen, theme_index, validate_inbox_dir, with_answers, Answers, DirEvent, DirStage,
    Environment,
};

fn home() -> Option<String> {
    Some("/home/u".to_string())
}

fn env(vars: &[(&str, &str)]) -> Environment {
    Environment {
        vars: vars.iter().map(|v| (v.0.to_string(), v.1.to_string())).collect(),
        home: home(),
    }
}

fn settings() -> Settings {
    Settings::with_dirs("~/Music".to_string(), "/data".to_string())
}

#[test]
fn test_default_settings() {
    let settings = settings();
    assert_eq!(settings.ui.theme, "tokyo-night");
    assert_eq!(settings.import.match_candidates, 5);
    assert_eq!(settings.import.organize_operation, OrganizeOperation::Move);
    assert_eq!(settings.musicbrainz.rate_limit_ms, 1100);
    assert_eq!(settings.musicbrainz.cover_art_size, CoverArtSize::Px500);
    assert!(settings.tagging.write_tags);
    assert_eq!(settings.database_file(), "/data/library.db");
}

#[test]
fn settings_are_normalized() {
    let mut s = settings();
    s.library.inbox_dirs = vec!["~/in".to_string(), "/x".to_string()];
    s.musicbrainz.rate_limit_ms = 0;
    s.normalize(&home());
    assert_eq!(s.library.music_dir, "/home/u/Music");
    assert_eq!(s.library.inbox_dirs, vec!["/home/u/in", "/x"]);
    assert_eq!(s.musicbrainz.rate_limit_ms, 1000);
    s.normalize(&home());
    assert_eq!(s.library.music_dir, "/home/u/Music");
    assert_eq!(floor_rate_limit(1001), 1001);
}

#[test]
fn only_a_whole_tilde_component_is_expanded() {
    assert_eq!(expand_tilde("~", &home()), "/home/u/");
    assert_eq!(expand_tilde("~/a/b", &home()), "/home/u/a/b");
    assert_eq!(expand_tilde("~user/a", &home()), "~user/a");
    assert_eq!(expand_tilde("/a/~", &home()), "/a/~");
    assert_eq!(expand_tilde("~/a", &None), "~/a");
}

#[test]
fn directories_have_fallbacks() {
    let p = Some("/p".to_string());
    assert_eq!(config_dir(&p), "/p/kyoku");
    assert_eq!(config_dir(&None), "~/.config/kyoku");
    assert_eq!(default_data_dir(&None), "~/.local/share/kyoku");
    assert_eq!(cache_dir(&None), "~/.cache/kyoku");
    assert_eq!(config_file(&p), "/p/kyoku/config.toml");
    assert_eq!(database_file(&p), "/p/kyoku/library.db");
    assert_eq!(default_music_dir(&home()), "/home/u/Music");
}

#[test]
fn unusable_directories_are_explained() {
    let broken = Some("denied".to_string());
    assert_eq!(library_dir_fault("/m", false, false, &None).as_deref(), Some("does not exist: /m"));
    assert_eq!(library_dir_fault("/m", true, false, &None).as_deref(), Some("not a directory: /m"));
    assert_eq!(library_dir_fault("/m", true, true, &broken).as_deref(), Some("not writable (denied)"));
    assert_eq!(library_dir_fault("/m", true, true, &None), None);
    assert_eq!(validate_inbox_dir("/m", true, true), None);
    assert_eq!(validate_inbox_dir("/m", false, true).as_deref(), Some("does not exist: /m"));
    assert_eq!(validate_inbox_dir("/m", true, false).as_deref(), Some("not a directory: /m"));
}

#[test]
fn render_config_escapes_paths_and_omits_dead_user_agent() {
    let mut library = toml::Table::new();
    library.insert("music_dir".into(), toml::Value::String("/tmp/music with \"quote\"".into()));
    let inbox = toml::Value::String("/tmp/inbox\\slash".into());
    library.insert("inbox_dirs".into(), toml::Value::Array(vec![inbox]));
    let template = toml::Value::String("custom/{artist}/{title}.{ext}".into());
    library.insert("path_template".into(), template);
    let mut import = toml::Table::new();
    import.insert("auto_match_threshold".into(), toml::Value::Float(0.91));
    import.insert("match_candidates".into(), toml::Value::Integer(9));
    let mut tagging = toml::Table::new();
    tagging.insert("write_tags".into(), toml::Value::Boolean(false));
    let mut ui = toml::Table::new();
    ui.insert("show_cover_preview".into(), toml::Value::Boolean(false));
    let mut settings = toml::Table::new();
    settings.insert("library".into(), toml::Value::Table(library));
    settings.insert("import".into(), toml::Value::Table(import));
    settings.insert("tagging".into(), toml::Value::Table(tagging));
    settings.insert("ui".into(), toml::Value::Table(ui));

    let rendered = render_config(&toml::to_string_pretty(&settings).unwrap());

    assert!(!rendered.contains("user_agent"));
    assert!(rendered.contains("custom/{artist}/{title}.{ext}"));
    let parsed: toml::Table = toml::from_str(&rendered).unwrap();
    assert_eq!(parsed, settings);
}

#[test]
fn a_rendered_config_begins_with_a_comment() {
    let rendered = render_config("[library]\nmusic_dir = 'x'\n");
    assert!(rendered.starts_with("# kyoku config.toml\n# Generated by `kyoku setup`. You can edit this file directly.\n#\n"));
    assert!(rendered.contains("#   {artist}, {album_artist}, {album}, {year}, {track}, {title},\n"));
    assert!(rendered.ends_with("no config key is needed.\n\n[library]\nmusic_dir = 'x'\n"));
    for line in rendered.lines().take(9) {
        assert!(line.starts_with('#'), "{line}");
    }
    assert_eq!(rendered.lines().nth(9), Some(""));
}

#[test]
fn variables_in_paths_are_replaced() {
    let e = env(&[("A", "/a"), ("EMPTY", "")]);
    let expand = |s: &str| e.expand_path_vars(s);
    assert_eq!(expand("${A}/x").as_deref(), Some("/a/x"));
    assert_eq!(expand("$A/x$A").as_deref(), Some("/a/x/a"));
    assert_eq!(expand("~").as_deref(), Some("/home/u"));
    assert_eq!(expand("~/d").as_deref(), Some("/home/u/d"));
    assert_eq!(expand("$").as_deref(), Some("$"));
    assert_eq!(expand("${A"), None);
    assert_eq!(expand("$UNKNOWN/x"), None);
    assert_eq!(expand("$EMPTY/x"), None);
    assert_eq!(expand("é/${A}音楽").as_deref(), Some("é//a音楽"));
    assert_eq!(e.resolve_var("HOME").as_deref(), Some("/home/u"));
    assert_eq!(e.resolve_var("NICOTINE_DATA_HOME").as_deref(), Some("/home/u/.local/share/nicotine"));
    let x = env(&[("XDG_CONFIG_HOME", "/c")]);
    assert_eq!(x.resolve_var("NICOTINE_CONFIG_HOME").as_deref(), Some("/c/nicotine"));
    let nobody = Environment { vars: vec![], home: None };
    assert_eq!(nobody.resolve_var("HOME"), None);
}

#[test]
fn download_folders_are_found() {
    let content = "[server]\ndownloaddir = /no\n[Transfers]\r\n downloaddir = '/a' \n\
                   downloaddir = \"${HOME}/b\"\ndownloaddir=\nother = /c\ndownloaddir = $NOPE\n[ui]\ndownloaddir = /d\n";
    assert_eq!(env(&[]).download_folders(content), vec!["/a", "/home/u/b"]);
}

#[test]
fn configurations_are_looked_for_once() {
    let e = env(&[]);
    assert_eq!(
        e.nicotine_configs(&Some("/lib".to_string())),
        vec!["/lib/nicotine/config", "/home/u/.config/nicotine/config"]
    );
    assert_eq!(
        e.nicotine_configs(&Some("/home/u/.config".to_string())),
        vec!["/home/u/.config/nicotine/config"]
    );
}

#[test]
fn directories_are_asked_for_until_usable() {
    let typed = || DirEvent::Typed("~/m".to_string());
    let (stage, note) = ask_dir(DirStage::Asking, typed(), &home(), false);
    assert!(note.is_none());
    let (stage, _) = ask_dir(stage, DirEvent::Probed(false), &home(), false);
    let (stage, note) = ask_dir(stage, DirEvent::Agreed(false), &home(), false);
    assert!(matches!(stage, DirStage::Asking));
    assert_eq!(note.as_deref(), Some("  → pick a different path."));

    let (stage, _) = ask_dir(stage, typed(), &home(), false);
    let (stage, _) = ask_dir(stage, DirEvent::Probed(false), &home(), false);
    let (stage, _) = ask_dir(stage, DirEvent::Agreed(true), &home(), false);
    let (stage, note) = ask_dir(stage, DirEvent::Created(Some("full".to_string())), &home(), false);
    assert!(matches!(stage, DirStage::Asking));
    assert_eq!(note.as_deref(), Some("  Could not create directory: full"));

    let (stage, _) = ask_dir(stage, typed(), &home(), false);
    let (stage, _) = ask_dir(stage, DirEvent::Probed(true), &home(), false);
    let (stage, note) = ask_dir(stage, DirEvent::Checked(Some("bad".to_string())), &home(), false);
    assert!(matches!(stage, DirStage::Asking));
    assert_eq!(note.as_deref(), Some("  bad\n  → pick a different path."));

    let (stage, _) = ask_dir(stage, typed(), &home(), false);
    let (stage, _) = ask_dir(stage, DirEvent::Probed(true), &home(), false);
    let (stage, _) = ask_dir(stage, DirEvent::Checked(None), &home(), false);
    assert!(matches!(stage, DirStage::Done { typed, path } if typed == "~/m" && path == "/home/u/m"));

    let blank = || DirEvent::Typed("  ".to_string());
    assert!(matches!(ask_dir(DirStage::Asking, blank(), &home(), true).0, DirStage::Skipped));
    assert!(matches!(ask_dir(DirStage::Asking, blank(), &home(), false).0, DirStage::Probing { .. }));
}

#[test]
fn directories_are_listed_once() {
    let mut list = vec!["/a".to_string()];
    add_dir(&mut list, "/b".to_string());
    add_dir(&mut list, "/a/".to_string());
    assert_eq!(list, vec!["/a", "/b"]);
}

#[test]
fn choices_stand_for_settings() {
    assert_eq!(script_chosen("latin  — prefer"), NameScriptPreference::Latin);
    assert_eq!(script_chosen("native — use"), NameScriptPreference::Native);
    assert_eq!(script_index(NameScriptPreference::Latin), 1);
    for (i, choice) in ["250      —", "500      —", "1200     —", "original —"].iter().enumerate() {
        assert_eq!(size_index(size_chosen(choice)), i);
    }
    let themes: Vec<String> = ["tokyo-night (dark)", "tokyo-night-light (light)", "kanagawa (dark)"]
        .iter()
        .map(|t| t.to_string())
        .collect();
    assert_eq!(theme_index(&themes, "kanagawa"), 2);
    assert_eq!(theme_index(&themes, "unknown"), 0);
    assert_eq!(theme_chosen(&themes[1]), "tokyo-night-light");
}

#[test]
fn answers_leave_other_settings_alone() {
    let mut current = settings();
    current.library.path_template = "custom".to_string();
    current.tagging.write_tags = false;
    let next = with_answers(
        current,
        Answers {
            music_dir: "/m".to_string(),
            data_dir: "/d".to_string(),
            inbox_dirs: vec!["/i".to_string()],
            name_script: NameScriptPreference::Latin,
            cover_art_size: CoverArtSize::Original,
            theme: "kanagawa".to_string(),
        },
    );
    assert_eq!(next.library.music_dir, "/m");
    assert_eq!(next.library.inbox_dirs, vec!["/i"]);
    assert_eq!(next.musicbrainz.cover_art_size, CoverArtSize::Original);
    assert_eq!(next.ui.theme, "kanagawa");
    assert_eq!(next.library.path_template, "custom");
    assert!(!next.tagging.write_tags);
}
