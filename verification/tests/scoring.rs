use kyoku::matching::{
    is_pure_latin, is_various_artists_label, match_titles, normalize_title, scripts_differ, sim, Measure,
    Part, ALIKE, ONE,
};
use kyoku::releases::{MbRelease, MbTrack};

/// A score as one number, with the factors that the cases below look at. A
/// factor that was left out reads as zero.
struct Scored {
    total: f64,
    artist: f64,
    album: f64,
    duration: f64,
    tracks: f64,
}

fn value(m: &Measure) -> f64 {
    match m {
        Measure::Ratio { num, den } => *num as f64 / *den as f64,
        Measure::Similarity { bits } => f64::from_bits(*bits),
        Measure::Mean { bits, of } => bits.iter().map(|b| f64::from_bits(*b)).sum::<f64>() / *of as f64,
    }
}

#[allow(clippy::too_many_arguments)]
fn score_release(
    artist: &str,
    album: &str,
    year: Option<i32>,
    count: u32,
    titles: &[String],
    ms: u64,
    candidate: &MbRelease,
) -> Scored {
    let s = kyoku::matching::score_release(artist, album, year, count, &titles.to_vec(), ms, candidate);
    let weight: f64 = s.factors.iter().map(|f| f.weight as f64 / 100.0).sum();
    let sum: f64 = s.factors.iter().map(|f| value(&f.value) * f.weight as f64 / 100.0).sum();
    let part = |p: Part| s.factors.iter().find(|f| f.part == p).map_or(0.0, |f| value(&f.value));
    Scored {
        total: s.keeps.iter().fold(sum / weight, |t, k| t * *k as f64 / 100.0),
        artist: part(Part::Artist),
        album: part(Part::Album),
        duration: part(Part::Duration),
        tracks: part(Part::Tracks),
    }
}

fn make_release(artist: &str, title: &str, tracks: &[&str]) -> MbRelease {
    MbRelease {
        id: "test-id".to_string(),
        title: title.to_string(),
        artist: artist.to_string(),
        year: Some(1997),
        country: Some("GB".to_string()),
        label: None,
        status: None,
        track_count: tracks.len() as u32,
        medium_count: 1,
        release_group_id: None,
        tracks: tracks
            .iter()
            .enumerate()
            .map(|(i, t)| MbTrack {
                disc: 1,
                position: (i + 1) as u32,
                title: t.to_string(),
                artist: None,
                duration_ms: Some(240_000),
                recording_id: String::new(),
            })
            .collect(),
        api_score: 100,
        group_min_year: None,
    }
}

#[test]
fn exact_match_scores_high() {
    let release = make_release("Radiohead", "OK Computer", &["Airbag", "Paranoid Android"]);
    let score = score_release(
        "Radiohead",
        "OK Computer",
        Some(1997),
        2,
        &["Airbag".to_string(), "Paranoid Android".to_string()],
        480_000,
        &release,
    );
    assert!(score.total > 0.9, "expected > 0.9, got {}", score.total);
}

#[test]
fn wrong_artist_scores_lower() {
    let release = make_release("Radiohead", "OK Computer", &["Airbag"]);
    let score = score_release(
        "Björk",
        "OK Computer",
        Some(1997),
        1,
        &["Airbag".to_string()],
        240_000,
        &release,
    );
    assert!(
        score.artist < 0.5,
        "artist score should be low: {}",
        score.artist
    );
    assert!(
        score.total < 0.95,
        "total should be below an exact match: {}",
        score.total
    );
}

#[test]
fn case_insensitive_matching() {
    let release = make_release("radiohead", "ok computer", &["airbag"]);
    let score = score_release(
        "RADIOHEAD",
        "OK COMPUTER",
        Some(1997),
        1,
        &["AIRBAG".to_string()],
        240_000,
        &release,
    );
    assert!(score.total > 0.9, "case should not matter: {}", score.total);
}

#[test]
fn year_mismatch_penalizes() {
    let release = make_release("Radiohead", "OK Computer", &["Airbag"]);
    let score_correct = score_release(
        "Radiohead",
        "OK Computer",
        Some(1997),
        1,
        &["Airbag".to_string()],
        240_000,
        &release,
    );
    let score_wrong = score_release(
        "Radiohead",
        "OK Computer",
        Some(2020),
        1,
        &["Airbag".to_string()],
        240_000,
        &release,
    );
    assert!(
        score_correct.total > score_wrong.total,
        "correct year {} should beat wrong year {}",
        score_correct.total,
        score_wrong.total
    );
}

#[test]
fn kanji_vs_kana_artist_is_treated_as_script_mismatch() {
    // File tag album_artist is "加藤隆" (pure Kanji/CJK), MB credit is
    // "ヨルシカ" (pure Katakana). Both are non-Latin but different
    // scripts — neither Jaro-Winkler nor a coarse "has non-Latin"
    // check can compare them usefully. Intersection of script sets
    // must be empty → artist factor excluded.
    let release = make_release("ヨルシカ", "幻燈", &[]);
    let score = score_release(
        "加藤隆",
        "幻燈",
        None,
        25,
        &[],
        0,
        &MbRelease {
            track_count: 25,
            year: Some(2023),
            ..release
        },
    );
    assert!(
        score.total > 0.95,
        "kanji vs kana artist should be script-disjoint and excluded: {}",
        score.total
    );
}

#[test]
fn artist_script_mismatch_does_not_tank_score() {
    // Local tags: artist "Yorushika" (Latin), album "幻燈" (Kanji)
    // MB credit: artist "ヨルシカ" (Katakana), album "幻燈" (Kanji, same)
    // Same entity — artist is just credited in a different script. The
    // previous artist-MBID resolution in search_releases already
    // confirmed these are the same artist.
    let release = make_release("ヨルシカ", "幻燈", &[]);
    let score = score_release(
        "Yorushika",
        "幻燈",
        Some(2023),
        25,
        &[],
        0,
        &MbRelease {
            track_count: 25,
            year: Some(2023),
            ..release
        },
    );
    assert!(
        score.total > 0.95,
        "script-mismatched artist should not sink an otherwise perfect match: {}",
        score.total
    );
}

#[test]
fn script_mismatch_does_not_tank_score() {
    // Local tags say "マエナラワナイ", MB returns the romanized
    // "Maenarawanai" — same album, different script. Jaro-Winkler scores
    // ~0 across scripts; without special handling this sinks the total
    // even when every other signal is a perfect match.
    let release = make_release("ATARASHII GAKKO!", "Maenarawanai", &[]);
    let score = score_release(
        "ATARASHII GAKKO!",
        "マエナラワナイ",
        Some(2018),
        10,
        &[],
        0,
        &MbRelease {
            track_count: 10,
            year: Some(2018),
            ..release
        },
    );
    assert!(
        score.total > 0.95,
        "script-mismatched title should not sink an otherwise perfect match: {}",
        score.total
    );
}

#[test]
fn different_albums_same_script_still_penalized() {
    // Sanity: the script-agnostic treatment must only kick in across
    // scripts. Two Latin-script albums with different names must still
    // score the album factor normally.
    let release = make_release("Artist", "OK Computer", &[]);
    let score = score_release("Artist", "Kid A", None, 0, &[], 0, &release);
    assert!(
        score.album < 0.8,
        "same-script differing titles must still penalize: {}",
        score.album
    );
}

#[test]
fn partial_album_subset_scores_high_via_aligned_titles() {
    // Real case: Soulseek rip of Selling England by the Pound missing
    // tracks 1-2 (local files are tracks 03-08). The tagged pressing
    // scored 81% — below trackless alternates — because titles were
    // compared positionally (Firth of Fifth vs Dancing with the
    // Moonlit Knight) and duration against the full release.
    let full: Vec<&str> = vec![
        "Dancing with the Moonlit Knight",
        "I Know What I Like (In Your Wardrobe)",
        "Firth of Fifth",
        "More Fool Me",
        "The Battle of Epping Forest",
        "After the Ordeal",
        "The Cinema Show",
        "Aisle of Plenty",
    ];
    let release = make_release("Genesis", "Selling England by the Pound", &full);
    let local_titles: Vec<String> = full[2..].iter().map(|s| s.to_string()).collect();

    let score = score_release(
        "Genesis",
        "Selling England by the Pound",
        Some(1973),
        6,
        &local_titles,
        // Incomplete album: total duration necessarily lacks the first
        // two tracks (~14min) — this used to zero the duration factor.
        2_487_811,
        &MbRelease {
            year: Some(1973),
            group_min_year: Some(1973),
            ..release
        },
    );

    assert!(
        score.tracks > 0.95,
        "subset titles must align to their real MB tracks: {}",
        score.tracks
    );
    assert!(
        score.total > 0.90,
        "partial but correct match should score like one: {}",
        score.total
    );
}

#[test]
fn unrelated_titles_still_sink_the_tracks_factor() {
    // Greedy alignment must not rescue a wrong album: garbage titles
    // don't meet the pairing threshold, so the factor collapses.
    let release = make_release(
        "Genesis",
        "Selling England by the Pound",
        &["Dancing with the Moonlit Knight", "More Fool Me"],
    );
    let score = score_release(
        "Genesis",
        "Selling England by the Pound",
        Some(1973),
        2,
        &["xyzzy01".to_string(), "qkvjty556".to_string()],
        0,
        &release,
    );
    assert!(
        score.tracks < 0.2,
        "unrelated titles must not pair: {}",
        score.tracks
    );
}

#[test]
fn duration_factor_applies_when_track_counts_agree() {
    // Equal counts: duration mismatch is a real signal again.
    let release = make_release("A", "B", &["t1", "t2"]); // 2 x 240s = 480s
    let score = score_release(
        "A",
        "B",
        Some(1997),
        2,
        &["t1".into(), "t2".into()],
        480_000,
        &release,
    );
    assert!(
        (score.duration - 1.0).abs() < 1e-9,
        "equal counts + equal duration should give 1.0: {}",
        score.duration
    );
}

#[test]
fn duration_factor_skipped_for_partial_albums() {
    let release = make_release("A", "B", &["t1", "t2", "t3", "t4"]);
    let score = score_release(
        "A",
        "B",
        Some(1997),
        2,
        &["t3".into(), "t4".into()],
        240_000, // only the 2 local tracks' worth
        &release,
    );
    assert_eq!(
        score.duration, 0.0,
        "factor must be excluded (surfaced as 0.0 in MatchScore), not penalised"
    );
}

#[test]
fn cjk_extension_b_counts_as_cjk_script() {
    let ext_b = "𠀀";
    assert!(!is_pure_latin(ext_b));
    assert!(scripts_differ(ext_b, "Latin Title"));
}

#[test]
fn empty_local_artist_is_excluded_from_weighting() {
    let release = make_release("Known Artist", "Perfect Album", &[]);
    let score = score_release(
        "   ",
        "Perfect Album",
        Some(1997),
        12,
        &[],
        0,
        &MbRelease {
            track_count: 12,
            year: Some(1997),
            ..release
        },
    );
    assert!(
        score.total >= 0.85,
        "artist-less perfect album should still auto-match: {}",
        score.total
    );
}

#[test]
fn is_pure_latin_basics() {
    assert!(is_pure_latin("Yorushika"));
    assert!(is_pure_latin("HANABIE."));
    assert!(is_pure_latin("Björk"));
    assert!(is_pure_latin("Year 2023"));
    assert!(is_pure_latin(""), "empty → no non-Latin letters");
    assert!(is_pure_latin("123"), "digits-only → no script bits");
    assert!(!is_pure_latin("ヨルシカ"));
    assert!(!is_pure_latin("花冷え。"));
    assert!(!is_pure_latin("幻燈"));
    assert!(!is_pure_latin("BUMP OF CHICKEN 結成"));
}

#[test]
fn various_artists_labels_detected() {
    for s in [
        "Various Artists",
        "various artists",
        "Various",
        "VA",
        "V.A.",
        "V/A",
        "Artisti Vari",
        "@Artisti Vari", // real tag from an Italian Soulseek rip
        "オムニバス",
        "ヴァリアス・アーティスト",
    ] {
        assert!(is_various_artists_label(s), "{s:?} should be VA");
    }
    for s in ["Genesis", "Variety Show", "Vangelis", ""] {
        assert!(!is_various_artists_label(s), "{s:?} is not VA");
    }
}

#[test]
fn various_artists_label_excluded_from_scoring() {
    // The tribute-album case: local album_artist is a localised VA
    // label, MB credit is "Various Artists". The artist factor must be
    // excluded, not scored near-zero — otherwise the *correct* tribute
    // release sinks below random pressings.
    let tribute = make_release(
        "Various Artists",
        "Return to the Dark Side of the Moon",
        &[],
    );
    let tribute = MbRelease {
        track_count: 10,
        year: Some(2006),
        group_min_year: Some(2006),
        ..tribute
    };
    let score = score_release(
        "@Artisti Vari",
        "Return To The Dark Side Of The Moon (A Tribute To Pink Floyd)",
        Some(2006),
        10,
        &[],
        0,
        &tribute,
    );
    assert!(
        score.total > 0.85,
        "VA-labeled correct album must score as a clean match: {}",
        score.total
    );
}

#[test]
fn single_track_candidate_loses_to_multi_track_album() {
    // Real-world case: local has 7 tracks of "Let me battle" by 9Lana;
    // MB surfaces a same-named 1-track single alongside the 11-track
    // album. Artist, album title, and year all match for both — only
    // track count distinguishes them. The single must score decisively
    // below the album so the UI surfaces the right candidate.
    let single = make_release("9Lana", "Let me battle", &[]);
    let single = MbRelease {
        track_count: 1,
        year: Some(2024),
        ..single
    };
    let album = make_release("9Lana", "Let me battle", &[]);
    let album = MbRelease {
        track_count: 11,
        year: Some(2024),
        ..album
    };

    let single_score = score_release("9Lana", "Let me battle", Some(2024), 7, &[], 0, &single);
    let album_score = score_release("9Lana", "Let me battle", Some(2024), 7, &[], 0, &album);

    assert!(
        album_score.total > single_score.total + 0.15,
        "album (11 trk) should decisively beat single (1 trk): album={}, single={}",
        album_score.total,
        single_score.total,
    );
    assert!(
        single_score.total < 0.72,
        "1-track single vs 7-track local must score below 0.72: {}",
        single_score.total,
    );
}

#[test]
fn normalized_album_title_matches() {
    let release = make_release("Artist", "MMXX Hypa Hypa Edition", &[]);
    let score = score_release(
        "Artist",
        "MMXX (Hypa Hypa edition)",
        None,
        0,
        &[],
        0,
        &release,
    );
    assert!(
        score.album > 0.9,
        "normalized titles should match well: {}",
        score.album
    );
}

/// Candidate factory for the pressing-preference tests below: same
/// artist/title/tracks, varying year/country within one release group.
fn make_pressing(
    artist: &str,
    title: &str,
    year: Option<i32>,
    country: Option<&str>,
    group_min_year: Option<i32>,
) -> MbRelease {
    MbRelease {
        year,
        country: country.map(String::from),
        group_min_year,
        ..make_release(artist, title, &[])
    }
}

fn queen_pressing(year: Option<i32>, country: Option<&str>, group_min: Option<i32>) -> MbRelease {
    MbRelease {
        track_count: 10,
        ..make_pressing("Queen", "A Day at the Races", year, country, group_min)
    }
}

fn beatles_pressing(
    year: Option<i32>,
    country: Option<&str>,
    group_min: Option<i32>,
) -> MbRelease {
    MbRelease {
        track_count: 17,
        ..make_pressing("The Beatles", "Abbey Road", year, country, group_min)
    }
}

#[test]
fn original_pressing_beats_reissue_when_local_year_known() {
    // The "A Day at the Races" report: MB's top hits for this album are
    // all 1990s–2010s reissues with identical relevance scores; the 1976
    // original sits deep in the list. With a local year tag of 1976 the
    // original must outrank every reissue by a wide margin.
    let original = queen_pressing(Some(1976), Some("US"), Some(1976));
    let reissue_2011 = queen_pressing(Some(2011), Some("XE"), Some(1976));
    let reissue_1993 = queen_pressing(Some(1993), Some("IT"), Some(1976));

    let s_orig = score_release("Queen", "A Day at the Races", Some(1976), 10, &[], 0, &original);
    let s_r2011 = score_release("Queen", "A Day at the Races", Some(1976), 10, &[], 0, &reissue_2011);
    let s_r1993 = score_release("Queen", "A Day at the Races", Some(1976), 10, &[], 0, &reissue_1993);

    assert!(s_orig.total > s_r2011.total + 0.15, "orig={} reissue={}", s_orig.total, s_r2011.total);
    assert!(s_orig.total > s_r1993.total + 0.15, "orig={} reissue={}", s_orig.total, s_r1993.total);
    assert!(s_orig.total >= 0.85, "original should auto-match: {}", s_orig.total);
}

#[test]
fn original_pressing_beats_reissue_even_without_local_year() {
    // Local files carry no year at all — originality must still push the
    // group-min-year pressing to the top so the default pick is sane.
    let original = beatles_pressing(Some(1969), Some("US"), Some(1969));
    let reissue = beatles_pressing(Some(2012), Some("XE"), Some(1969));

    let s_orig = score_release("The Beatles", "Abbey Road", None, 17, &[], 0, &original);
    let s_reissue = score_release("The Beatles", "Abbey Road", None, 17, &[], 0, &reissue);

    assert!(s_orig.total > s_reissue.total, "orig={} reissue={}", s_orig.total, s_reissue.total);
}

#[test]
fn worldwide_or_major_market_beats_exotic_pressing_on_ties() {
    // All else equal (the MB score-100 tie swamp), XE should beat CN,
    // and both should stay within review range of each other — the
    // country factor is a nudge, not a verdict.
    let xe = beatles_pressing(Some(1987), Some("XE"), Some(1969));
    let cn = beatles_pressing(Some(1987), Some("CN"), Some(1969));

    let s_xe = score_release("The Beatles", "Abbey Road", None, 17, &[], 0, &xe);
    let s_cn = score_release("The Beatles", "Abbey Road", None, 17, &[], 0, &cn);

    assert!(s_xe.total > s_cn.total, "XE={} CN={}", s_xe.total, s_cn.total);
    assert!(
        s_xe.total - s_cn.total < 0.10,
        "country must be only a nudge: XE={} CN={}",
        s_xe.total,
        s_cn.total
    );
}

#[test]
fn candidate_without_year_gets_no_originality_penalty() {
    // A pressing with no known date (common for digital XW releases)
    // must not sink below every dated reissue — the originality factor
    // is excluded (weight redistributed), not zeroed.
    let undated = beatles_pressing(None, Some("XW"), Some(1969));
    let score = score_release("The Beatles", "Abbey Road", None, 17, &[], 0, &undated);
    assert!(
        score.total > 0.85,
        "undated XW pressing should stay competitive: {}",
        score.total
    );
}

#[test]
fn bootleg_is_demoted_below_official_pressing() {
    let bootleg = MbRelease {
        status: Some("Bootleg".to_string()),
        ..beatles_pressing(Some(1969), Some("XW"), Some(1969))
    };
    let official = beatles_pressing(Some(1969), Some("US"), Some(1969));

    let s_boot = score_release("The Beatles", "Abbey Road", None, 17, &[], 0, &bootleg);
    let s_off = score_release("The Beatles", "Abbey Road", None, 17, &[], 0, &official);

    assert!(
        s_off.total > s_boot.total,
        "official={} bootleg={}",
        s_off.total,
        s_boot.total
    );
}


fn factors(candidate: &MbRelease, year: Option<i32>, count: u32) -> Vec<(Part, u32, f64)> {
    kyoku::matching::score_release("Queen", "Races", year, count, &vec![], 0, candidate)
        .factors
        .iter()
        .map(|f| (f.part, f.weight, value(&f.value)))
        .collect()
}

fn factor(candidate: &MbRelease, year: Option<i32>, count: u32, part: Part) -> Option<f64> {
    factors(candidate, year, count).into_iter().find(|f| f.0 == part).map(|f| f.2)
}

#[test]
fn weights_are_in_hundredths() {
    let c = MbRelease { group_min_year: Some(1997), track_count: 10, ..make_release("Queen", "Races", &[]) };
    let weights: Vec<(Part, u32)> = factors(&c, Some(1997), 10).into_iter().map(|f| (f.0, f.1)).collect();
    assert_eq!(
        weights,
        vec![
            (Part::Api, 10),
            (Part::TrackCount, 25),
            (Part::Artist, 15),
            (Part::Album, 15),
            (Part::Year, 15),
            (Part::Country, 6),
            (Part::Original, 8),
        ]
    );
}

#[test]
fn years_apart_cost_more_and_more() {
    let c = make_release("Queen", "Races", &[]);
    let year = |y: i32| factor(&c, Some(y), 0, Part::Year).unwrap();
    assert_eq!(year(1997), 1.0);
    assert_eq!(year(1998), 0.8);
    assert_eq!(year(1995), 0.5);
    assert_eq!(year(2000), 0.4);
    assert_eq!(year(2001), 0.2);
    assert_eq!(year(2002), 0.0);
    assert_eq!(year(i32::MIN), 0.0);
    assert_eq!(factor(&c, None, 0, Part::Year), None);
}

#[test]
fn track_counts_are_compared() {
    let counts = |local: u32, candidate: u32| {
        let c = MbRelease { track_count: candidate, ..make_release("Queen", "Races", &[]) };
        factor(&c, None, local, Part::TrackCount).unwrap()
    };
    assert_eq!(counts(0, 5), 0.5);
    assert_eq!(counts(5, 0), 0.5);
    assert_eq!(counts(7, 7), 1.0);
    assert_eq!(counts(7, 14), 0.5);
    assert_eq!(counts(14, 7), 0.25);
}

#[test]
fn countries_and_pressings_are_ranked() {
    let country = |code: &str| {
        let c = MbRelease { country: Some(code.to_string()), ..make_release("Queen", "Races", &[]) };
        factor(&c, None, 0, Part::Country).unwrap()
    };
    assert_eq!(country("XW"), 1.0);
    assert_eq!(country("XE"), 0.95);
    assert_eq!(country("US"), 0.90);
    assert_eq!(country("JP"), 0.85);
    assert_eq!(country("CA"), 0.80);
    assert_eq!(country("XU"), 0.60);
    assert_eq!(country("CN"), 0.70);
    let original = |after: i32| {
        let c = MbRelease { group_min_year: Some(1997 - after), ..make_release("Queen", "Races", &[]) };
        factor(&c, None, 0, Part::Original).unwrap()
    };
    assert_eq!([-3, 0, 1, 2, 3, 5, 8, 9].map(original), [1.0, 1.0, 0.75, 0.55, 0.40, 0.25, 0.15, 0.08]);
}

#[test]
fn pseudo_releases_are_demoted() {
    let mut c = make_release("Queen", "Races", &[]);
    c.status = Some("pseudo-release".to_string());
    assert!(c.is_pseudo_release());
    let s = kyoku::matching::score_release("Queen", "Races", None, 0, &vec![], 0, &c);
    assert_eq!(s.keeps, vec![85]);
}

#[test]
fn similarity_is_that_of_the_lowered_texts() {
    assert_eq!(f64::from_bits(ONE), 1.0);
    assert_eq!(f64::from_bits(ALIKE), 0.70);
    assert_eq!(sim("", ""), ONE);
    assert_eq!(sim("", "x"), 0);
    assert_eq!(sim("HeLLo", "hEllO"), ONE);
    assert_eq!(f64::from_bits(sim("Cheeseburger", "cheese fries")), strsim::jaro_winkler("cheeseburger", "cheese fries"));
    assert!(sim("İstanbul", "i̇STANBUL") == ONE);
}

#[test]
fn titles_pair_one_to_one() {
    let tracks = make_release("A", "B", &["Song", "Other"]).tracks;
    let locals = vec!["Song".to_string(), "song".to_string()];
    assert_eq!(match_titles(&locals, &tracks), vec![ONE]);
    let locals = vec!["Other".to_string(), "Song".to_string()];
    assert_eq!(match_titles(&locals, &tracks), vec![ONE, ONE]);
}

#[test]
fn titles_are_normalized() {
    assert_eq!(normalize_title("MMXX (Hypa Hypa edition)"), "MMXX Hypa Hypa edition");
    assert_eq!(normalize_title("MMXX - Hypa Hypa Edition"), "MMXX Hypa Hypa Edition");
    assert_eq!(normalize_title("Rehab (bonus tracks version)"), "Rehab bonus tracks version");
    assert_eq!(normalize_title("  A — B:  C [x] "), "A B C x");
}

#[test]
fn equal_titles_match_in_any_order() {
    let release = make_release("A", "B", &["Airbag", "Lucky", "airbag", "Exit Music"]);
    let locals: Vec<String> = ["EXIT MUSIC", "Airbag", "Lucky", "AIRBAG"].map(String::from).to_vec();
    assert_eq!(match_titles(&locals, &release.tracks), vec![ONE; 4]);
    let part: Vec<String> = ["exit music", "LUCKY"].map(String::from).to_vec();
    assert_eq!(match_titles(&part, &release.tracks), vec![ONE; 2]);
    assert_eq!(sim("Straße", "STRAßE"), ONE);
    assert_eq!(sim("", "x"), 0);
}
