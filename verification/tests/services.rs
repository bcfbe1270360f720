use kyoku::cover_art::{extension_for_mime, CoverImage, FrontFetch, FrontStep};
use kyoku::error::KyokuError;
use kyoku::http::{after_attempt, error_chain, failed_status, AttemptError, Next, Throttle};
use kyoku::json::{get, get_number, get_text, read_json, Json};
use kyoku::musicbrainz::{
    answer_failure, first_releases, parse_aliases, parse_error,
    parse_full_release, parse_search_release, pseudo_sources, read_aliases, read_group_releases,
    read_group_year, read_release, resolve_names, truncate_for_log, with_alternates, year_in,
    AliasCache, ArtistCredit, ParsedFullRelease, Resolved, SearchRelease, SearchReleaseGroup,
};
use kyoku::name_preference::MbAlias;
use kyoku::releases::{MbRelease, MbTrack};
use kyoku::search::{
    artist_candidates, artist_search, artist_search_url, artist_url, build_arid_query,
    build_artist_search_query, escape_lucene, first_search, group_releases_url, group_url,
    later_searches, release_search_url, release_url, strip_parenthesized_suffix,
    strip_trailing_punct, urlencoding, ArtistHit,
};
use kyoku::settings::{CoverArtSize, NameScriptPreference};

fn strings(v: &[&str]) -> Vec<String> {
    v.iter().map(|s| s.to_string()).collect()
}

fn json(s: &str) -> Json {
    read_json(s).unwrap()
}

fn release(id: &str, status: Option<&str>, group: Option<&str>) -> MbRelease {
    MbRelease {
        id: id.to_string(),
        title: "Title".to_string(),
        artist: "Artist".to_string(),
        year: None,
        country: None,
        label: Some("Label".to_string()),
        status: status.map(String::from),
        track_count: 9,
        medium_count: 1,
        tracks: vec![],
        api_score: 77,
        release_group_id: group.map(String::from),
        group_min_year: None,
    }
}

#[test]
fn extension_maps_common_mimes() {
    assert_eq!(extension_for_mime("image/jpeg"), "jpg");
    assert_eq!(extension_for_mime("image/jpg"), "jpg");
    assert_eq!(extension_for_mime("image/png"), "png");
    assert_eq!(extension_for_mime("IMAGE/PNG"), "png");
    assert_eq!(extension_for_mime("image/webp"), "webp");
    assert_eq!(extension_for_mime("application/octet-stream"), "jpg");
    assert_eq!(extension_for_mime(""), "jpg");
}

#[test]
fn artist_search_query_skips_empty_cleaned_artist() {
    assert!(build_artist_search_query("", Some("Album"), None).is_none());
    assert!(build_artist_search_query("   ", Some("Album"), None).is_none());
    assert_eq!(strip_trailing_punct("..."), "");
}

const TWO_DISCS: &str = r#"{
    "id": "rel-1",
    "title": "Two Disc Album",
    "artist-credit": [{
        "name": "Artist",
        "artist": { "id": "artist-1", "name": "Artist", "sort-name": "Artist" }
    }],
    "release-group": { "id": "rg-1", "first-release-date": "2024-01-01" },
    "media": [
        { "position": 1, "tracks": [
            { "position": 1, "title": "Disc 1 Track 1", "length": 1000,
              "recording": { "id": "rec-1-1" } }
        ]},
        { "position": 2, "tracks": [
            { "position": 1, "title": "Disc 2 Track 1", "length": 2000,
              "recording": { "id": "rec-2-1" } }
        ]}
    ]
}"#;

#[test]
fn parse_full_release_preserves_medium_and_disc_numbers() {
    let parsed = parse_full_release(&json(TWO_DISCS)).release;

    assert_eq!(parsed.medium_count, 2);
    assert_eq!(parsed.track_count, 2);
    assert_eq!(parsed.tracks[0].disc, 1);
    assert_eq!(parsed.tracks[0].position, 1);
    assert_eq!(parsed.tracks[1].disc, 2);
    assert_eq!(parsed.tracks[1].position, 1);
    assert_eq!(parsed.tracks[1].recording_id, "rec-2-1");
}

#[test]
fn full_releases_are_read_from_answers() {
    let p = read_release(TWO_DISCS).unwrap();
    assert_eq!(p.release.id, "rel-1");
    assert_eq!(p.release.artist, "Artist");
    assert_eq!(p.release.year, Some(2024));
    assert_eq!(p.release.release_group_id.as_deref(), Some("rg-1"));
    assert_eq!(p.release.api_score, 100);
    assert_eq!(p.release.tracks[0].duration_ms, Some(1000));
    assert_eq!(p.release_artist_mbid.as_deref(), Some("artist-1"));
    assert_eq!(p.track_artist_mbids, vec![None, None]);
    let e = read_release("not json").unwrap_err();
    assert!(matches!(&e, KyokuError::External(m) if m.starts_with("MB parse failed: ") && m.ends_with(": body=not json")));
}

#[test]
fn documents_are_read() {
    let j = json(r#"{"n": 7, "neg": -1, "f": 1.5, "t": "x", "l": [null, true], "o": {"k": "v"}}"#);
    assert_eq!(get_number(&j, "n"), Some(7));
    assert_eq!(get_number(&j, "neg"), None);
    assert_eq!(get_number(&j, "f"), None);
    assert_eq!(get_text(&j, "t").as_deref(), Some("x"));
    assert!(matches!(get(&j, "l"), Some(Json::List(v)) if matches!(v[..], [Json::Null, Json::Bool(true)])));
    assert_eq!(get_text(get(&j, "o").unwrap(), "k").as_deref(), Some("v"));
    assert!(get(&j, "none").is_none());
    assert!(read_json("{").is_err());
}

#[test]
fn malformed_aliases_are_passed_over() {
    let j = json(
        r#"{"aliases": [
            {"name": "A", "locale": "en", "type": "Artist name", "primary": true},
            {"name": "B", "locale": null},
            {"name": "C", "primary": null},
            {"locale": "en"},
            ["D", "ja"],
            "E",
            {"name": 3}
        ]}"#,
    );
    let aliases = parse_aliases(&j);
    let names: Vec<&str> = aliases.iter().map(|a| a.name.as_str()).collect();
    assert_eq!(names, vec!["A", "B", "D"]);
    assert!(aliases[0].primary && !aliases[1].primary);
    assert_eq!(aliases[2].locale.as_deref(), Some("ja"));
    assert_eq!(read_aliases("{}").unwrap().len(), 0);
    assert!(read_aliases("").is_err());
}

#[test]
fn years_are_read_from_dates() {
    assert_eq!(year_in("2024-01-01"), Some(2024));
    assert_eq!(year_in("1976"), Some(1976));
    assert_eq!(year_in("197"), None);
    assert_eq!(year_in("20x4"), None);
    assert_eq!(year_in("-123"), Some(-123));
    assert_eq!(year_in("+123"), Some(123));
    assert_eq!(year_in("二〇二四"), None);
    assert_eq!(read_group_year(r#"{"first-release-date": "1969-09-26"}"#).unwrap(), Some(1969));
    assert_eq!(read_group_year("{}").unwrap(), None);
    assert!(read_group_year("[").is_err());
}

fn search_release() -> SearchRelease {
    SearchRelease {
        id: "id".to_string(),
        title: "t".to_string(),
        score: Some(98),
        date: None,
        country: None,
        track_count: Some(12),
        status: None,
        artist_credit: Some(vec![ArtistCredit { name: None, artist_name: Some("A".to_string()) }]),
        label_info: Some(vec![None, Some("L".to_string())]),
        release_group: Some(SearchReleaseGroup { id: Some("g".to_string()), first_release_date: None }),
        release_events: Some(vec![None, Some("2003-05".to_string()), Some("2001".to_string())]),
    }
}

#[test]
fn search_results_become_candidates() {
    let m = parse_search_release(search_release());
    assert_eq!(m.artist, "A");
    assert_eq!(m.label, None);
    assert_eq!(m.year, Some(2001));
    assert_eq!((m.track_count, m.medium_count, m.api_score), (12, 0, 98));
    assert_eq!(m.release_group_id.as_deref(), Some("g"));
    let mut r = search_release();
    r.release_group.as_mut().unwrap().first_release_date = Some("1999-01".to_string());
    assert_eq!(parse_search_release(r).year, Some(1999));
    let mut r = search_release();
    r.date = Some("".to_string());
    assert_eq!(parse_search_release(r).year, None);
}

#[test]
fn alternatives_come_in_order_of_their_years() {
    let source = release("p", Some("Pseudo-Release"), Some("g"));
    let body = r#"{"first-release-date": "1990", "releases": [
        {"id": "z", "date": "1995"},
        {"id": "b", "title": "Own"},
        {"id": "x", "status": "pseudo-release", "date": "1980"},
        {"date": "1970"},
        {"id": "a", "release-events": [{"date": "1990-02"}]}
    ]}"#;
    let got = read_group_releases(body, "g", &source).unwrap();
    let seen: Vec<(&str, Option<i32>)> = got.iter().map(|r| (r.id.as_str(), r.year)).collect();
    assert_eq!(seen, vec![("a", Some(1990)), ("b", Some(1990)), ("z", Some(1995))]);
    assert_eq!(got[0].title, "Title");
    assert_eq!(got[1].title, "Own");
    assert_eq!(got[0].label.as_deref(), Some("Label"));
    assert_eq!(got[0].api_score, 77);
    assert_eq!(first_releases(got, 2).len(), 2);
}

#[test]
fn alternatives_go_before_pseudo_releases() {
    let rs = vec![release("1", Some("Pseudo-Release"), Some("g")), release("2", None, None)];
    assert_eq!(pseudo_sources(&rs), vec![0]);
    let alternates = vec![release("2", None, None), release("3", None, None), release("3", None, None)];
    let merged = with_alternates(rs, alternates);
    let ids: Vec<&str> = merged.iter().map(|r| r.id.as_str()).collect();
    assert_eq!(ids, vec!["3", "1", "2"]);
}

fn parsed() -> ParsedFullRelease {
    let mut r = release("1", None, None);
    r.title = "幻燈".to_string();
    r.artist = "ヨルシカ".to_string();
    let track = |artist: Option<&str>| MbTrack {
        disc: 1,
        position: 1,
        title: "曲".to_string(),
        artist: artist.map(String::from),
        duration_ms: None,
        recording_id: String::new(),
    };
    r.tracks = vec![track(Some("Latin")), track(Some("初音ミク")), track(None)];
    ParsedFullRelease {
        release: r,
        title_aliases: vec![MbAlias { name: "Magic Lantern".to_string(), ..Default::default() }],
        release_artist_mbid: Some("a1".to_string()),
        release_artist_sort: None,
        track_artist_mbids: vec![Some("a2".to_string()), Some("a3".to_string()), Some("a4".to_string())],
        track_artist_sorts: vec![None, Some("Hatsune Miku".to_string()), None],
    }
}

#[test]
fn names_are_resolved_with_one_lookup_each() {
    let p = parsed();
    let mut cache = AliasCache::new();
    let mut asked = Vec::new();
    let done = loop {
        match resolve_names(&p, NameScriptPreference::Latin, &mut cache) {
            Resolved::Release(r) => break r,
            Resolved::Ask(mbid) => {
                let aliases = if mbid == "a1" {
                    vec![MbAlias { name: "Yorushika".to_string(), ..Default::default() }]
                } else {
                    vec![]
                };
                asked.push(mbid.clone());
                cache.insert(mbid, aliases);
            }
        }
    };
    assert_eq!(asked, vec!["a1", "a3"]);
    assert_eq!(done.title, "Magic Lantern");
    assert_eq!(done.artist, "Yorushika");
    let artists: Vec<Option<&str>> = done.tracks.iter().map(|t| t.artist.as_deref()).collect();
    assert_eq!(artists, vec![Some("Latin"), Some("Hatsune Miku"), None]);
    assert_eq!(done.tracks[0].title, "曲");
    let native = resolve_names(&p, NameScriptPreference::Native, &mut AliasCache::new());
    assert!(matches!(native, Resolved::Release(r) if r.artist == "ヨルシカ" && r.title == "幻燈"));
}

#[test]
fn names_are_cleaned_for_searching() {
    assert_eq!(strip_trailing_punct("HANABIE."), "HANABIE");
    assert_eq!(strip_trailing_punct("BABYMETAL!"), "BABYMETAL");
    assert_eq!(strip_trailing_punct("t.A.T.u."), "t.A.T.u");
    assert_eq!(strip_trailing_punct("花冷え。"), "花冷え");
    assert_eq!(strip_parenthesized_suffix("Rehab (bonus tracks version)"), "Rehab");
    assert_eq!(strip_parenthesized_suffix("OK Computer (Deluxe Edition)"), "OK Computer");
    assert_eq!(strip_parenthesized_suffix("Kid A"), "Kid A");
    assert_eq!(strip_parenthesized_suffix("(What's)"), "(What's)");
}

#[test]
fn queries_are_escaped() {
    assert_eq!(escape_lucene("AC/DC: (live)!"), "AC\\/DC\\: \\(live\\)\\!");
    assert_eq!(
        build_artist_search_query("A", Some("B"), Some("F")).unwrap(),
        "artist:(A) AND release:(B) AND F"
    );
    assert_eq!(build_artist_search_query("A", None, None).unwrap(), "artist:(A)");
    assert_eq!(build_arid_query(&strings(&["x"]), None, None), "arid:x");
    assert_eq!(
        build_arid_query(&strings(&["x", "y"]), Some("B"), None),
        "(arid:x OR arid:y) AND release:(B)"
    );
}

#[test]
fn searches_get_looser() {
    assert_eq!(
        first_search("HANABIE.", "Album (Deluxe)", 7),
        "artist:(HANABIE) AND release:(Album) AND primarytype:(Album OR EP)"
    );
    assert_eq!(first_search("...", "Album", 2), "release:(Album)");
    assert_eq!(artist_search("HANABIE.").as_deref(), Some("HANABIE"));
    assert_eq!(artist_search("..."), None);
    assert_eq!(
        later_searches("HANABIE.", "Album", 7, &strings(&["i"])),
        vec![
            "arid:i AND release:(Album) AND primarytype:(Album OR EP)",
            "artist:(HANABIE) AND release:(Album)",
            "arid:i AND release:(Album)",
            "artist:(HANABIE)",
            "arid:i",
            "artist:(HANABIE.) AND release:(Album)",
        ]
    );
    assert_eq!(later_searches("A", "B", 2, &vec![]), vec!["artist:(A)"]);
    assert_eq!(
        later_searches("...", "B", 4, &vec![]),
        vec!["release:(B)", "artist:(...) AND release:(B)"]
    );
}

#[test]
fn strong_artist_hits_are_candidates_once() {
    let hit = |id: &str, score: Option<u8>| ArtistHit { id: id.to_string(), score };
    let hits = vec![hit("a", Some(100)), hit("b", Some(79)), hit("a", Some(90)), hit("c", None), hit("d", Some(80))];
    assert_eq!(artist_candidates(&hits), vec!["a", "d"]);
}

#[test]
fn addresses_are_built() {
    assert_eq!(urlencoding("a b:\"c\"&+?#é(x)/%"), "a%20b%3A%22c%22%26%2B%3F%23%C3%A9(x)%2F%25");
    assert_eq!(
        release_search_url("artist:(A)", 5),
        "https://musicbrainz.org/ws/2/release/?query=artist%3A(A)&fmt=json&limit=5"
    );
    assert_eq!(artist_search_url("A", 25), "https://musicbrainz.org/ws/2/artist/?query=A&fmt=json&limit=25");
    assert_eq!(
        release_url("m"),
        "https://musicbrainz.org/ws/2/release/m?inc=recordings+artists+labels+aliases+release-groups&fmt=json"
    );
    assert_eq!(group_url("g"), "https://musicbrainz.org/ws/2/release-group/g?fmt=json");
    assert_eq!(group_releases_url("g"), "https://musicbrainz.org/ws/2/release-group/g?inc=releases&fmt=json");
    assert_eq!(artist_url("a"), "https://musicbrainz.org/ws/2/artist/a?inc=aliases&fmt=json");
}

#[test]
fn messages_are_cut_short() {
    assert_eq!(truncate_for_log("  abc ", 3), "abc");
    assert_eq!(truncate_for_log("abcd", 3), "abc…");
    assert!(matches!(parse_error("L", "r", " b "), KyokuError::External(m) if m == "L: r: body=b"));
}

#[test]
fn answers_are_judged() {
    assert!(answer_failure(200, "200 OK", "").is_none());
    let busy = answer_failure(503, "503 Service Unavailable", r#"{"error": "busy"}"#);
    assert!(matches!(busy, Some(AttemptError::Retryable(m)) if m == "HTTP 503 Service Unavailable: busy"));
    let gone = answer_failure(404, "404 Not Found", "nope");
    assert!(matches!(gone, Some(AttemptError::Permanent(m)) if m == "HTTP 404 Not Found: nope"));
    assert!(matches!(failed_status(599, "x".to_string()), Some(AttemptError::Retryable(_))));
    assert!(failed_status(204, "x".to_string()).is_none());
}

#[test]
fn requests_are_spaced_and_tried_twice() {
    let t = Throttle::new(1100);
    assert_eq!(t.wait(None), 0);
    assert_eq!(t.wait(Some(100)), 1000);
    assert_eq!(t.wait(Some(1100)), 0);
    let retryable = || Err::<u8, AttemptError>(AttemptError::Retryable("r".to_string()));
    assert!(matches!(after_attempt("MB x", false, Ok(1)), Next::Done(1)));
    assert!(matches!(after_attempt("MB x", false, retryable()), Next::Again));
    match after_attempt("MB x", true, retryable()) {
        Next::Failed(e) => assert_eq!(e.message(), "External service error: MB x failed after retry: r"),
        other => panic!("{other:?}"),
    }
    match after_attempt::<u8>("MB x", false, Err(AttemptError::Permanent("p".to_string()))) {
        Next::Failed(e) => assert_eq!(e.message(), "External service error: MB x failed: p"),
        other => panic!("{other:?}"),
    }
    assert_eq!(error_chain(&strings(&["a", "b", "c"])), "a: b: c");
    assert_eq!(error_chain(&vec![]), "");
}

#[test]
fn covers_fall_back_from_the_original() {
    let image = || CoverImage { bytes: vec![1], extension: "jpg" };
    let mut f = FrontFetch::new("m", CoverArtSize::Original);
    assert_eq!(f.url(), "https://coverartarchive.org/release/m/front");
    assert!(matches!(f.step(Err(AttemptError::Retryable("x".to_string()))), FrontStep::Retry));
    assert_eq!(f.url(), "https://coverartarchive.org/release/m/front");
    assert!(matches!(f.step(Ok(None)), FrontStep::Ask));
    assert_eq!(f.url(), "https://coverartarchive.org/release/m/front-1200");
    assert!(matches!(f.step(Ok(None)), FrontStep::Ask));
    assert_eq!(f.url(), "https://coverartarchive.org/release/m/front-500");
    assert!(matches!(f.step(Ok(None)), FrontStep::Missing));

    let mut f = FrontFetch::new("m", CoverArtSize::Px250);
    assert_eq!(f.url(), "https://coverartarchive.org/release/m/front-250");
    assert!(matches!(f.step(Ok(None)), FrontStep::Missing));
    let mut f = FrontFetch::new("m", CoverArtSize::Px250);
    assert!(matches!(f.step(Ok(Some(image()))), FrontStep::Found(i) if i.bytes == vec![1]));
    let mut f = FrontFetch::new("m", CoverArtSize::Px250);
    match f.step(Err(AttemptError::Permanent("HTTP 400".to_string()))) {
        FrontStep::Failed(e) => assert_eq!(e.message(), "External service error: CAA fetch for m failed: HTTP 400"),
        other => panic!("{other:?}"),
    }
}
