use kyoku::name_preference::{pick_preferred_name, AliasKind, MbAlias};
use kyoku::settings::NameScriptPreference;

fn alias(name: &str, locale: Option<&str>, primary: bool, type_: Option<&str>) -> MbAlias {
    MbAlias {
        name: name.to_string(),
        locale: locale.map(String::from),
        type_: type_.map(String::from),
        primary,
    }
}

#[test]
fn native_preserves_canonical_regardless_of_aliases() {
    let aliases = vec![alias("Yorushika", Some("en"), true, Some("Artist name"))];
    let got = pick_preferred_name(
        "ヨルシカ",
        Some("Yorushika"),
        &aliases,
        NameScriptPreference::Native,
        AliasKind::Artist,
    );
    assert_eq!(got, "ヨルシカ");
}

#[test]
fn latin_picks_en_primary_artist_alias() {
    let aliases = vec![
        alias("ヨルシカ", Some("ja"), true, Some("Artist name")),
        alias("YORUSHIKA", None, false, None),
        alias("Yorushika", Some("en"), true, Some("Artist name")),
    ];
    let got = pick_preferred_name(
        "ヨルシカ",
        Some("Yorushika"),
        &aliases,
        NameScriptPreference::Latin,
        AliasKind::Artist,
    );
    assert_eq!(got, "Yorushika");
}

#[test]
fn latin_keeps_canonical_when_already_latin() {
    let got = pick_preferred_name(
        "HANABIE.",
        None,
        &[],
        NameScriptPreference::Latin,
        AliasKind::Artist,
    );
    assert_eq!(got, "HANABIE.");
}

#[test]
fn latin_falls_back_to_sort_name_when_no_alias() {
    let got = pick_preferred_name(
        "ヨルシカ",
        Some("Yorushika"),
        &[],
        NameScriptPreference::Latin,
        AliasKind::Artist,
    );
    assert_eq!(got, "Yorushika");
}

#[test]
fn latin_falls_back_to_canonical_when_nothing_matches() {
    let got = pick_preferred_name(
        "幻燈",
        Some("幻燈"),
        &[],
        NameScriptPreference::Latin,
        AliasKind::Release,
    );
    assert_eq!(got, "幻燈");
}

#[test]
fn latin_picks_release_alias_of_matching_type() {
    let aliases = vec![
        alias("Some Artist Alias", Some("en"), true, Some("Artist name")),
        alias("Summer Grass", Some("en"), true, Some("Release name")),
    ];
    let got = pick_preferred_name(
        "夏草が邪魔をする",
        None,
        &aliases,
        NameScriptPreference::Latin,
        AliasKind::Release,
    );
    assert_eq!(got, "Summer Grass");
}

#[test]
fn latin_tolerates_untyped_aliases() {
    let aliases = vec![MbAlias {
        name: "Yorushika".to_string(),
        locale: Some("en".to_string()),
        primary: true,
        ..Default::default()
    }];
    let got = pick_preferred_name(
        "ヨルシカ",
        None,
        &aliases,
        NameScriptPreference::Latin,
        AliasKind::Artist,
    );
    assert_eq!(got, "Yorushika");
}

#[test]
fn english_goes_before_other_latin_aliases() {
    let aliases = vec![
        alias("Autre", Some("fr"), true, None),
        alias("English", Some("en_GB"), false, None),
    ];
    let got = pick_preferred_name("花", None, &aliases, NameScriptPreference::Latin, AliasKind::Artist);
    assert_eq!(got, "English");
    let got =
        pick_preferred_name("花", None, &aliases[..1], NameScriptPreference::Latin, AliasKind::Artist);
    assert_eq!(got, "Autre");
}
