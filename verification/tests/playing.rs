use kyoku::error::KyokuError;
use kyoku::player::{
    detection_table, filter_playable, items_from_rows, launch_failure, outcome_notice,
    pathext_candidates, prepare_with_probes, render_argv, render_playlist, resolve_player,
    split_command, Os, PlayItem, PlayOutcome, PlayTarget, Probes, RealProbes, Transport,
};
use kyoku::rows::TrackRow;
use kyoku::settings::Settings;
use std::collections::{HashMap, HashSet};

struct FakeProbes {
    bins: HashSet<&'static str>,
    apps: HashSet<&'static str>,
    pf: HashSet<&'static str>,
    os: Os,
}

impl FakeProbes {
    fn linux(bins: &[&'static str]) -> Self {
        Self { bins: bins.iter().cloned().collect(), apps: HashSet::new(), pf: HashSet::new(), os: Os::Linux }
    }
    fn mac(apps: &[&'static str]) -> Self {
        Self { bins: HashSet::new(), apps: apps.iter().cloned().collect(), pf: HashSet::new(), os: Os::MacOS }
    }
    fn windows(bins: &[&'static str], program_files: &[&'static str]) -> Self {
        Self {
            bins: bins.iter().cloned().collect(),
            apps: HashSet::new(),
            pf: program_files.iter().cloned().collect(),
            os: Os::Windows,
        }
    }
}

impl Probes for FakeProbes {
    fn which(&self, bin: &str) -> bool {
        self.bins.contains(bin)
    }
    fn app_exists(&self, app: &str) -> bool {
        self.apps.contains(app)
    }
    fn program_file(&self, rel: &str) -> Option<String> {
        self.pf.contains(rel).then(|| format!("C:\\Program Files\\{rel}"))
    }
    fn os(&self) -> Os {
        self.os
    }
}

fn item(path: &str, title: &str) -> PlayItem {
    PlayItem {
        path: path.to_string(),
        title: title.to_string(),
        artist: Some("Artist".to_string()),
        duration_ms: Some(180_000),
    }
}

fn settings_no_player() -> Settings {
    Settings::with_dirs("/music".to_string(), "/data".to_string())
}

fn strings(v: &[&str]) -> Vec<String> {
    v.iter().map(|s| s.to_string()).collect()
}

#[test]
fn configured_command_wins_over_detection() {
    let mut s = settings_no_player();
    s.player.command = Some(vec!["myplayer".into(), "--flag".into()]);
    let probes = FakeProbes::linux(&["mpv"]);
    let r = resolve_player(&s, &probes);
    assert_eq!(r.argv, vec!["myplayer", "--flag"]);
    assert_eq!(r.transport, Transport::Playlist);
    assert!(r.label.contains("custom"));
}

#[test]
fn empty_command_falls_through_to_detection() {
    let mut s = settings_no_player();
    s.player.command = Some(vec![]);
    let probes = FakeProbes::linux(&["mpv"]);
    let r = resolve_player(&s, &probes);
    assert_eq!(r.label, "mpv");
}

#[test]
fn configured_app_wins_on_macos() {
    let mut s = settings_no_player();
    s.player.app = Some("MyPlayer".into());
    let probes = FakeProbes::mac(&["IINA"]);
    let r = resolve_player(&s, &probes);
    assert_eq!(r.argv, vec!["open", "-a", "MyPlayer", "{playlist}"]);
}

#[test]
fn configured_app_is_ignored_elsewhere() {
    let mut s = settings_no_player();
    s.player.app = Some("MyPlayer".into());
    assert_eq!(resolve_player(&s, &FakeProbes::linux(&["vlc"])).label, "VLC");
    let r = resolve_player(&s, &FakeProbes::linux(&[]));
    assert_eq!(r.argv, vec!["xdg-open", "{playlist}"]);
}

#[test]
fn linux_detection_order_and_syntax() {
    let probes = FakeProbes::linux(&["strawberry", "mpv"]);
    let r = resolve_player(&settings_no_player(), &probes);
    assert_eq!(r.label, "mpv", "mpv outranks strawberry");

    let probes = FakeProbes::linux(&["strawberry", "audacious"]);
    let r = resolve_player(&settings_no_player(), &probes);
    assert_eq!(r.argv, vec!["strawberry", "--load", "{playlist}"]);

    let probes = FakeProbes::linux(&["audacious"]);
    let r = resolve_player(&settings_no_player(), &probes);
    assert_eq!(r.argv, vec!["audacious", "-E", "{playlist}"]);
}

#[test]
fn file_list_transport_derived_from_template() {
    let probes = FakeProbes::linux(&["amberol"]);
    let r = resolve_player(&settings_no_player(), &probes);
    assert_eq!(r.label, "Amberol");
    assert_eq!(r.transport, Transport::FileList);

    let probes = FakeProbes::linux(&["quodlibet"]);
    let r = resolve_player(&settings_no_player(), &probes);
    assert_eq!(r.transport, Transport::FileList);
}

#[test]
fn mac_detection_iina_beats_music_and_music_is_last() {
    let probes = FakeProbes::mac(&["IINA", "Music"]);
    let r = resolve_player(&settings_no_player(), &probes);
    assert_eq!(r.label, "IINA");

    let probes = FakeProbes::mac(&["Music"]);
    let r = resolve_player(&settings_no_player(), &probes);
    assert_eq!(r.label, "Music", "Music present but only as last resort");
}

#[test]
fn fallback_is_os_default_handler() {
    let r = resolve_player(&settings_no_player(), &FakeProbes::linux(&[]));
    assert_eq!(r.argv, vec!["xdg-open", "{playlist}"]);

    let r = resolve_player(&settings_no_player(), &FakeProbes::mac(&[]));
    assert_eq!(r.argv, vec!["open", "{playlist}"]);

    let r = resolve_player(&settings_no_player(), &FakeProbes::windows(&[], &[]));
    assert_eq!(r.argv, vec!["explorer.exe", "{playlist}"]);
}

#[test]
fn windows_path_binaries_detected_first() {
    let probes = FakeProbes::windows(&["mpv"], &["foobar2000\\foobar2000.exe"]);
    let r = resolve_player(&settings_no_player(), &probes);
    assert_eq!(r.label, "mpv");
    assert_eq!(r.argv, vec!["mpv", "--playlist={playlist}"]);

    let probes = FakeProbes::windows(&["vlc"], &["foobar2000\\foobar2000.exe"]);
    let r = resolve_player(&settings_no_player(), &probes);
    assert_eq!(r.label, "VLC", "stock PATH install beats install-dir fb2k");
    assert_eq!(r.argv, vec!["vlc", "{playlist}"]);
}

#[test]
fn windows_program_files_probe_resolves_absolute_exe() {
    let probes = FakeProbes::windows(&[], &["foobar2000\\foobar2000.exe"]);
    let r = resolve_player(&settings_no_player(), &probes);
    assert_eq!(r.label, "foobar2000");
    assert_eq!(r.argv, vec!["C:\\Program Files\\foobar2000\\foobar2000.exe", "{playlist}"]);
    assert_eq!(r.transport, Transport::Playlist);

    let probes = FakeProbes::windows(&[], &["VideoLAN\\VLC\\vlc.exe"]);
    let r = resolve_player(&settings_no_player(), &probes);
    assert_eq!(r.argv[0], "C:\\Program Files\\VideoLAN\\VLC\\vlc.exe");
}

#[test]
fn windows_mpv_outranks_fb2k_and_vlc_pf_is_last() {
    let probes = FakeProbes::windows(
        &["mpv"],
        &["foobar2000\\foobar2000.exe", "VideoLAN\\VLC\\vlc.exe"],
    );
    assert_eq!(resolve_player(&settings_no_player(), &probes).label, "mpv");

    let probes = FakeProbes::windows(&[], &["VideoLAN\\VLC\\vlc.exe"]);
    assert_eq!(resolve_player(&settings_no_player(), &probes).label, "VLC");
}

#[test]
fn what_a_machine_has_is_looked_up() {
    let probes = RealProbes {
        os: Os::Windows,
        bins: vec![],
        apps: strings(&["IINA"]),
        program_files: vec![("VideoLAN\\VLC\\vlc.exe".to_string(), "D:\\vlc.exe".to_string())],
    };
    assert!(probes.app_exists("IINA"));
    assert!(!probes.app_exists("VLC"));
    assert!(!probes.which("mpv"));
    let r = resolve_player(&settings_no_player(), &probes);
    assert_eq!(r.argv, vec!["D:\\vlc.exe", "{playlist}"]);
}

#[test]
fn every_table_names_programs() {
    for os in [Os::Linux, Os::MacOS, Os::Windows] {
        assert!(detection_table(os).iter().all(|e| !e.argv.is_empty()));
    }
    assert_eq!(detection_table(Os::Linux).len(), 10);
    assert_eq!(detection_table(Os::MacOS).last().unwrap().label, "Music");
}

#[test]
fn pathext_candidates_expands_bare_name() {
    let got = pathext_candidates("mpv", Some(".COM;.EXE;.BAT;.CMD;.VBS"));
    assert_eq!(got, vec!["mpv", "mpv.com", "mpv.exe", "mpv.bat", "mpv.cmd", "mpv.vbs"]);
}

#[test]
fn pathext_candidates_keeps_extension_and_handles_defaults() {
    assert_eq!(pathext_candidates("mpv.exe", Some(".EXE")), vec!["mpv.exe"]);
    let got = pathext_candidates("mpv", None);
    assert!(got.contains(&"mpv.exe".to_string()), "{got:?}");
    let got = pathext_candidates("mpv", Some(";.EXE;;"));
    assert_eq!(got, vec!["mpv", "mpv.exe"]);
}

#[test]
fn empty_pathext_falls_back_to_defaults() {
    let defaults = vec!["mpv", "mpv.com", "mpv.exe", "mpv.bat", "mpv.cmd"];
    assert_eq!(pathext_candidates("mpv", None), defaults);
    assert_eq!(pathext_candidates("mpv", Some("")), defaults);
}

#[test]
fn argv_playlist_placeholder_substituted() {
    let tpl = strings(&["mpv", "--playlist={playlist}"]);
    let argv = render_argv(&tpl, &PlayTarget::Playlist("/tmp/x.m3u8".to_string()));
    assert_eq!(argv, vec!["mpv".to_string(), format!("--playlist={}", "/tmp/x.m3u8")]);
}

#[test]
fn argv_no_placeholder_appends_target() {
    let argv = render_argv(&strings(&["vlc"]), &PlayTarget::SingleFile("/a.flac".to_string()));
    assert_eq!(argv, vec!["vlc", "/a.flac"]);

    let argv = render_argv(&strings(&["amberol"]), &PlayTarget::FileList(strings(&["/a", "/b"])));
    assert_eq!(argv, vec!["amberol", "/a", "/b"]);
}

#[test]
fn argv_files_and_files_csv_expansion() {
    let tpl = strings(&["amberol", "{files}"]);
    let argv = render_argv(&tpl, &PlayTarget::FileList(strings(&["/a", "/b"])));
    assert_eq!(argv, vec!["amberol", "/a", "/b"]);

    let tpl = strings(&["quodlibet", "--enqueue-files={files-csv}"]);
    let argv = render_argv(&tpl, &PlayTarget::FileList(strings(&["/a", "/b"])));
    assert_eq!(argv, vec!["quodlibet".to_string(), format!("--enqueue-files={},{}", "/a", "/b")]);
}

#[test]
fn playlist_is_utf8_m3u8_with_extinf() {
    let items = vec![
        PlayItem {
            path: "/music/ヨルシカ/靴の花火.flac".to_string(),
            title: "靴の花火".to_string(),
            artist: Some("ヨルシカ".to_string()),
            duration_ms: Some(183_400),
        },
        PlayItem {
            path: "/music/x.mp3".to_string(),
            title: "NoDuration".to_string(),
            artist: None,
            duration_ms: None,
        },
    ];
    let content = render_playlist(&items);
    assert!(content.starts_with("#EXTM3U\n"));
    let expected_a = "/music/ヨルシカ/靴の花火.flac";
    let expected_b = "/music/x.mp3";
    assert!(content.contains(&format!("#EXTINF:183,ヨルシカ - 靴の花火\n{expected_a}\n")));
    assert!(content.contains(&format!("#EXTINF:-1,NoDuration\n{expected_b}\n")));
}

#[test]
fn playlist_entries_stay_on_two_lines() {
    let mut odd = item("/a", "two\nlines\r");
    odd.artist = Some(String::new());
    odd.duration_ms = Some(u64::MAX);
    let content = render_playlist(&vec![odd]);
    assert_eq!(content, "#EXTM3U\n#EXTINF:18446744073709552,two lines \n/a\n");
    assert_eq!(content.matches('\n').count(), 3);
}

#[test]
fn prepare_single_item_opens_file_directly_without_playlist() {
    let mut s = settings_no_player();
    s.player.command = Some(vec!["fake-player".into()]);
    let audio = "/tmp/x/song.flac";
    let probes = FakeProbes::linux(&[]);
    let p = prepare_with_probes(&s, vec![item(audio, "Song")], &probes, &strings(&[audio]), "/cache").unwrap();
    assert_eq!(p.outcome.played, 1);
    assert_eq!(p.outcome.playlist_path, None);
    assert_eq!(p.playlist, None);
    assert_eq!(p.outcome.argv, vec!["fake-player", audio]);
}

#[test]
fn prepare_multi_item_writes_playlist_and_counts_skips() {
    let mut s = settings_no_player();
    s.player.command = Some(vec!["fake-player".into()]);
    let items = vec![item("/t/a.flac", "A"), item("/t/gone.flac", "Gone"), item("/t/b.flac", "B")];
    let probes = FakeProbes::linux(&[]);
    let p = prepare_with_probes(&s, items, &probes, &strings(&["/t/a.flac", "/t/b.flac"]), "/cache").unwrap();
    assert_eq!(p.outcome.played, 2);
    assert_eq!(p.outcome.skipped_missing, 1);
    assert_eq!(p.outcome.playlist_path.as_deref(), Some("/cache/play/kyoku-play.m3u8"));
    let content = p.playlist.expect("multi-item → playlist");
    assert!(content.contains("/t/a.flac"));
    assert!(content.contains("/t/b.flac"));
    assert!(!content.contains("gone.flac"));
}

#[test]
fn prepare_all_missing_is_an_error() {
    let s = settings_no_player();
    let items = vec![item("/definitely/not/here.flac", "X")];
    let err = prepare_with_probes(&s, items, &FakeProbes::linux(&[]), &vec![], "/cache").unwrap_err();
    assert!(err.message().contains("nothing playable"), "{}", err.message());
    assert!(err.message().contains("1 file(s) missing"));
}

#[test]
fn prepare_csv_transport_skips_comma_paths() {
    let mut s = settings_no_player();
    s.player.command = Some(vec!["quodlibet".into(), "--enqueue-files={files-csv}".into()]);
    let on_disk = strings(&["/t/a,b.flac", "/t/ok.flac"]);
    let items = vec![item("/t/a,b.flac", "W"), item("/t/ok.flac", "OK")];
    let p = prepare_with_probes(&s, items, &FakeProbes::linux(&[]), &on_disk, "/cache").unwrap();
    assert_eq!(p.outcome.played, 1);
    assert_eq!(p.outcome.skipped_missing, 1);
    assert_eq!(p.outcome.argv.len(), 2);
    assert!(p.outcome.argv[1].starts_with("--enqueue-files="));
    assert!(!p.outcome.argv[1].contains("a,b.flac"));
}

#[test]
fn line_breaks_in_paths_are_not_played() {
    let on_disk = strings(&["/a\nb", "/c,d"]);
    let items = vec![item("/a\nb", "x"), item("/c,d", "y")];
    let (playable, skipped) = filter_playable(items, &on_disk, false);
    assert_eq!(playable.len(), 1);
    assert_eq!(skipped, 1);
}

fn row(id: i64, path: &str) -> TrackRow {
    TrackRow {
        id,
        title: format!("T{id}"),
        artist: None,
        track_number: None,
        disc_number: 1,
        duration_ms: None,
        tag_status: String::new(),
        bitrate: None,
        file_format: String::new(),
        file_path: path.to_string(),
    }
}

#[test]
fn collection_items_prefer_existing_copy_fall_back_to_primary() {
    let rows = vec![row(1, "/m/a.flac"), row(2, "/m/b.flac"), row(3, "/m/c.flac")];
    let mut copies = HashMap::new();
    copies.insert(1, "/m/Collections/Mix/a.flac".to_string());
    copies.insert(2, "/m/Collections/Mix/b.flac".to_string());
    let on_disk = strings(&["/m/Collections/Mix/a.flac"]);
    let items = items_from_rows(&rows, Some(&copies), &on_disk);
    assert_eq!(items[0].path, "/m/Collections/Mix/a.flac", "existing copy wins");
    assert_eq!(items[1].path, "/m/b.flac", "missing copy → primary");
    assert_eq!(items[2].path, "/m/c.flac");
    assert_eq!(items_from_rows(&rows, None, &on_disk)[0].path, "/m/a.flac");
}

#[test]
fn bare_paths_are_titled_by_their_stem() {
    assert_eq!(PlayItem::from_path("/x/song.flac".to_string()).title, "song");
    assert_eq!(PlayItem::from_path("/".to_string()).title, "?");
}

#[test]
fn notice_mentions_context_counts_and_player() {
    let outcome = PlayOutcome {
        player_label: "mpv".to_string(),
        argv: vec![],
        playlist_path: None,
        played: 12,
        skipped_missing: 2,
    };
    let n = outcome_notice(&outcome, "幻燈");
    assert!(
        n.contains("幻燈") && n.contains("12 tracks") && n.contains("mpv") && n.contains("2 skipped"),
        "{n}"
    );
}

#[test]
fn notice_for_one_track_is_short() {
    let outcome = PlayOutcome {
        player_label: "mpv".to_string(),
        argv: vec![],
        playlist_path: None,
        played: 1,
        skipped_missing: 0,
    };
    assert_eq!(outcome_notice(&outcome, "x"), "Playing: x (1 track) via mpv");
}

#[test]
fn a_command_is_split_for_starting() {
    let (program, args) = split_command(&strings(&["vlc", "a", "b"])).unwrap();
    assert_eq!(program, "vlc");
    assert_eq!(args, vec!["a", "b"]);
    assert!(matches!(split_command(&vec![]), Err(KyokuError::External(_))));
    assert!(launch_failure("vlc", "gone").message().contains("failed to launch `vlc`: gone"));
}
