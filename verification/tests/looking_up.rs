use kyoku::cli::{need, Command, Need};
use kyoku::cover_art::{cover_image, front_status};
use kyoku::error::KyokuError;
use kyoku::http::AttemptError;
use kyoku::lookup::{Completion, CompletionAsk, ReleaseSearch, SearchAsk};
use kyoku::queries::{collection_pattern, placeholders, track_search, TrackSearch};
use kyoku::relocator::verify_paths;
use kyoku::releases::MbRelease;
use kyoku::search::ArtistHit;
use kyoku::tag_write::{TagWrite, WriteAction, WriteEvent};
use kyoku::tagger::{TagChanges, TagValue, TagWriteReport};
use lofty::tag::ItemKey;

fn release(id: &str, status: Option<&str>, group: Option<&str>, year: Option<i32>) -> MbRelease {
    MbRelease {
        id: id.to_string(),
        title: "T".to_string(),
        artist: "A".to_string(),
        year,
        country: None,
        label: None,
        status: status.map(String::from),
        track_count: 1,
        medium_count: 1,
        tracks: vec![],
        api_score: 100,
        release_group_id: group.map(String::from),
        group_min_year: None,
    }
}

/// The queries of a search that finds nothing, or finds at query `hit`.
fn queries(artist: &str, tracks: u32, arids: &[&str], hit: Option<usize>) -> Vec<String> {
    let mut search = ReleaseSearch::new(artist, "Album", tracks);
    let mut asked = Vec::new();
    loop {
        match search.ask() {
            SearchAsk::Releases(q) => {
                search.releases(hit == Some(asked.len()));
                asked.push(q);
            }
            SearchAsk::Artists(q) => {
                asked.push(format!("artists {q}"));
                let hits = arids.iter().map(|id| ArtistHit { id: id.to_string(), score: Some(90) }).collect();
                search.artists(&hits);
            }
            SearchAsk::Nothing => return asked,
        }
    }
}

#[test]
fn searches_go_on_until_something_is_found() {
    assert_eq!(
        queries("HANABIE.", 5, &["i"], None),
        vec![
            "artist:(HANABIE) AND release:(Album) AND primarytype:(Album OR EP)",
            "artists HANABIE",
            "arid:i AND release:(Album) AND primarytype:(Album OR EP)",
            "artist:(HANABIE) AND release:(Album)",
            "arid:i AND release:(Album)",
            "artist:(HANABIE)",
            "arid:i",
            "artist:(HANABIE.) AND release:(Album)",
        ]
    );
    assert_eq!(queries("A", 1, &[], Some(0)), vec!["artist:(A) AND release:(Album)"]);
    assert_eq!(queries("HANABIE.", 5, &["i"], Some(3)).len(), 4);
    assert_eq!(queries("...", 1, &[], None), vec!["release:(Album)", "artist:(...) AND release:(Album)"]);
}

#[test]
fn results_are_completed() {
    let pseudo = Some("Pseudo-Release");
    let mut c = Completion::new(vec![
        release("p", pseudo, Some("g1"), Some(2000)),
        release("q", pseudo, None, Some(2001)),
        release("y", None, Some("g2"), None),
        release("n", None, None, None),
    ]);
    match c.ask() {
        CompletionAsk::Alternates { group, source } => {
            assert_eq!((group.as_str(), source.id.as_str()), ("g1", "p"));
        }
        other => panic!("{other:?}"),
    }
    c.alternates(vec![release("a", None, Some("g1"), None), release("y", None, None, None)]);
    let mut groups = Vec::new();
    while let CompletionAsk::Year { group } = c.ask() {
        c.year(if group == "g1" { Some(1999) } else { None });
        groups.push(group);
    }
    assert!(matches!(c.ask(), CompletionAsk::Nothing));
    assert_eq!(groups, vec!["g1", "g2"]);
    let done: Vec<(String, Option<i32>)> = c.into_releases(5).into_iter().map(|r| (r.id, r.year)).collect();
    let expected = [("a", Some(1999)), ("p", Some(2000)), ("q", Some(2001)), ("y", None), ("n", None)];
    assert_eq!(done, expected.map(|e| (e.0.to_string(), e.1)).to_vec());
    assert!(matches!(Completion::new(vec![]).ask(), CompletionAsk::Nothing));
}

#[test]
fn results_keep_to_the_limit() {
    let ids = |limit: u32| -> Vec<String> {
        let mut c = Completion::new(vec![release("p", Some("Pseudo-Release"), Some("g"), Some(2000))]);
        c.alternates(vec![release("a", None, Some("g"), Some(1999))]);
        c.into_releases(limit).into_iter().map(|r| r.id).collect()
    };
    assert_eq!(ids(1), vec!["a"]);
    assert_eq!(ids(2), vec!["a", "p"]);
    assert_eq!(ids(25), vec!["a", "p"]);
}

fn changes() -> TagChanges {
    TagChanges { set: vec![(ItemKey::TrackTitle, TagValue::Text("x".to_string()))], unset: vec![] }
}

#[test]
fn tags_are_written_through_a_copy() {
    let mut w = TagWrite::new("/m/a.mp3", &changes());
    let copy = match w.action() {
        WriteAction::Copy { from, to } => {
            assert_eq!(from, "/m/a.mp3");
            assert_ne!(to, from);
            to
        }
        other => panic!("{other:?}"),
    };
    w.step(WriteEvent::Done);
    assert!(matches!(w.action(), WriteAction::Save { path } if path == copy));
    w.step(WriteEvent::Saved(TagWriteReport { fields_written: 1, fields_removed: 0 }));
    assert!(matches!(w.action(), WriteAction::Rename { from, to } if from == copy && to == "/m/a.mp3"));
    w.step(WriteEvent::Done);
    assert!(matches!(w.action(), WriteAction::Nothing));
    assert_eq!(w.finish().unwrap().fields_written, 1);
}

#[test]
fn failed_writes_discard_the_copy() {
    let failure = || WriteEvent::Failed(KyokuError::Io("full".to_string()));
    let mut w = TagWrite::new("/m/a.mp3", &changes());
    w.step(failure());
    assert!(matches!(w.action(), WriteAction::Nothing));
    assert_eq!(w.finish().unwrap_err().message(), "IO error: full");
    for saved in [false, true] {
        let mut w = TagWrite::new("/m/a.mp3", &changes());
        w.step(WriteEvent::Done);
        if saved {
            w.step(WriteEvent::Saved(TagWriteReport { fields_written: 1, fields_removed: 0 }));
        }
        w.step(failure());
        assert!(matches!(w.action(), WriteAction::Remove { .. }));
        w.step(WriteEvent::Done);
        assert!(matches!(w.action(), WriteAction::Nothing));
        assert!(w.finish().is_err());
    }
}

#[test]
fn nothing_is_written_without_changes() {
    let w = TagWrite::new("/m/a.mp3", &TagChanges::default());
    assert!(matches!(w.action(), WriteAction::Nothing));
    let report = w.finish().unwrap();
    assert_eq!((report.fields_written, report.fields_removed), (0, 0));
}

#[test]
fn verify_paths_returns_only_missing_files() {
    let rows = vec![(1, "/t/real.mp3".to_string()), (2, "/t/ghost.mp3".to_string())];
    let missing = verify_paths(&rows, &vec!["/t/real.mp3".to_string()]);
    assert_eq!(missing.len(), 1);
    assert_eq!(missing[0].0, 2);
    assert_eq!(missing[0].1, "/t/ghost.mp3");
}

#[test]
fn tracks_are_searched_by_index_or_pattern() {
    assert!(matches!(track_search("a b", Some(3)), TrackSearch::FullText(q) if q == "\"a\"* \"b\"*"));
    assert!(matches!(track_search("\"", Some(3)), TrackSearch::Nothing));
    assert!(matches!(track_search("a_b", Some(0)), TrackSearch::Pattern(p) if p == "%a\\_b%"));
    assert!(matches!(track_search("x", None), TrackSearch::Pattern(p) if p == "%x%"));
    assert_eq!(collection_pattern("a%"), "%a%%");
    assert_eq!(placeholders(3), "?,?,?");
    assert_eq!(placeholders(0), "");
}

#[test]
fn cover_answers_are_judged() {
    assert!(matches!(front_status(200, "200 OK"), Ok(true)));
    assert!(matches!(front_status(404, "404 Not Found"), Ok(false)));
    assert!(matches!(front_status(503, "503 X"), Err(AttemptError::Retryable(m)) if m == "HTTP 503 X"));
    assert!(matches!(front_status(400, "400 Bad"), Err(AttemptError::Permanent(m)) if m == "HTTP 400 Bad"));
    assert_eq!(cover_image(Some("image/png"), vec![1]).extension, "png");
    assert_eq!(cover_image(None, vec![]).extension, "jpg");
}

#[test]
fn recovery_commands_need_no_configuration() {
    for there in [false, true] {
        assert_eq!(need(&Some(Command::Setup), there), Need::Nothing);
        assert_eq!(need(&Some(Command::Paths), there), Need::Nothing);
        assert_eq!(need(&Some(Command::Info { path: "x".to_string() }), there), Need::Nothing);
    }
    assert_eq!(need(&Some(Command::Scan), false), Need::Missing);
    assert_eq!(need(&Some(Command::Scan), true), Need::Config);
    assert_eq!(need(&None, false), Need::Welcome);
    assert_eq!(need(&None, true), Need::Config);
}
