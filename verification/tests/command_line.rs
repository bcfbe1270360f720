use kyoku::cli::{
    add_import, album_context, collection_notice, duration_text, is_yes, organize_filter, Cli,
    CliError, Command,
};
use kyoku::importer::ImportResult;
use kyoku::organizer::OrganizeFilter;

fn parse(args: &[&str]) -> Result<Cli, CliError> {
    Cli::try_parse_from(&args.iter().map(|a| a.to_string()).collect())
}

#[test]
fn organize_filters_are_mutually_exclusive() {
    assert!(parse(&["kyoku", "organize", "--artist", "A", "--album", "B"]).is_err());
}

#[test]
fn organize_pretend_conflicts_with_apply() {
    assert!(parse(&["kyoku", "organize", "--apply", "--pretend"]).is_err());
}

#[test]
fn organize_yes_requires_apply() {
    assert!(parse(&["kyoku", "organize", "--yes"]).is_err());
    assert!(parse(&["kyoku", "organize", "--apply", "--yes"]).is_ok());
}

#[test]
fn commands_and_their_options_are_read() {
    let cli = parse(&["kyoku"]).unwrap();
    assert!(cli.command.is_none() && cli.config.is_none());

    let cli = parse(&["kyoku", "--config", "/c.toml", "import", "-p", "/in", "--collection=Mix"]).unwrap();
    assert_eq!(cli.config.as_deref(), Some("/c.toml"));
    match cli.command.unwrap() {
        Command::Import { path, pretend, loose, collection } => {
            assert_eq!(path.as_deref(), Some("/in"));
            assert!(pretend && !loose);
            assert_eq!(collection.as_deref(), Some("Mix"));
        }
        other => panic!("{other:?}"),
    }

    match parse(&["kyoku", "organize", "--apply", "-yd", "--path", "/m"]).unwrap().command.unwrap() {
        Command::Organize { apply, yes, pretend, details, path, artist, .. } => {
            assert!(apply && yes && details && !pretend);
            assert_eq!(path.as_deref(), Some("/m"));
            assert!(artist.is_none());
        }
        other => panic!("{other:?}"),
    }

    match parse(&["kyoku", "play", "--dry-run", "--", "-odd.mp3"]).unwrap().command.unwrap() {
        Command::Play { path, dry_run, .. } => {
            assert_eq!(path.as_deref(), Some("-odd.mp3"));
            assert!(dry_run);
        }
        other => panic!("{other:?}"),
    }

    let cli = parse(&["kyoku", "scan", "--config=x"]).unwrap();
    assert_eq!(cli.config.as_deref(), Some("x"));
    assert!(matches!(cli.command, Some(Command::Scan)));
    let cli = parse(&["kyoku", "--config", "a", "scan", "--config", "b"]).unwrap();
    assert_eq!(cli.config.as_deref(), Some("b"));
    assert!(matches!(parse(&["kyoku", "setup"]).unwrap().command, Some(Command::Setup)));
    assert!(matches!(parse(&["kyoku", "paths"]).unwrap().command, Some(Command::Paths)));
    assert!(matches!(parse(&["kyoku", "info", "a"]).unwrap().command, Some(Command::Info { .. })));
}

#[test]
fn each_fault_is_named() {
    let fault = |args: &[&str]| parse(args).unwrap_err();
    assert_eq!(fault(&["kyoku", "--help"]), CliError::Help);
    assert_eq!(fault(&["kyoku", "help"]), CliError::Help);
    assert_eq!(fault(&["kyoku", "scan", "-h"]), CliError::Help);
    assert_eq!(fault(&["kyoku", "-V"]), CliError::Version);
    assert_eq!(fault(&["kyoku", "scan", "--version"]), CliError::UnknownArgument);
    assert_eq!(fault(&["kyoku", "dance"]), CliError::UnknownCommand);
    assert_eq!(fault(&["kyoku", "scan", "extra"]), CliError::UnknownArgument);
    assert_eq!(fault(&["kyoku", "import", "--apply"]), CliError::UnknownArgument);
    assert_eq!(fault(&["kyoku", "organize", "--artist"]), CliError::MissingValue);
    assert_eq!(fault(&["kyoku", "organize", "--artist", "--apply"]), CliError::MissingValue);
    assert_eq!(fault(&["kyoku", "info", ""]), CliError::MissingValue);
    assert_eq!(fault(&["kyoku", "import", ""]), CliError::MissingValue);
    assert_eq!(fault(&["kyoku", "organize", "--path", ""]), CliError::MissingValue);
    assert_eq!(fault(&["kyoku", "--config=", "paths"]), CliError::MissingValue);
    assert_eq!(fault(&["kyoku", "organize", "--apply=1"]), CliError::UnexpectedValue);
    assert_eq!(fault(&["kyoku", "organize", "-d", "-d"]), CliError::Repeated);
    assert_eq!(fault(&["kyoku", "organize", "--album", "A", "--album", "B"]), CliError::Repeated);
    assert_eq!(fault(&["kyoku", "--config", "a", "--config", "b", "scan"]), CliError::Repeated);
    assert_eq!(fault(&["kyoku", "scan", "--config=a", "--config=b"]), CliError::Repeated);
    assert_eq!(fault(&["kyoku", "organize", "--path", "A", "--collection", "B"]), CliError::Conflict);
    assert_eq!(fault(&["kyoku", "organize", "--apply", "--pretend"]), CliError::Conflict);
    assert_eq!(fault(&["kyoku", "organize", "-y"]), CliError::Requires);
    assert_eq!(fault(&["kyoku", "info"]), CliError::MissingArgument);
}

#[test]
fn filters_have_an_order() {
    let some = |s: &str| Some(s.to_string());
    assert!(matches!(organize_filter(some("a"), None, None, None), OrganizeFilter::Artist(a) if a == "a"));
    assert!(matches!(organize_filter(None, some("b"), some("c"), None), OrganizeFilter::Album(a) if a == "b"));
    assert!(matches!(organize_filter(None, None, some("c"), some("d")), OrganizeFilter::Path(a) if a == "c"));
    assert!(matches!(organize_filter(None, None, None, some("d")), OrganizeFilter::Collection(a) if a == "d"));
    assert!(matches!(organize_filter(None, None, None, None), OrganizeFilter::All));
}

#[test]
fn only_a_lone_y_means_yes() {
    assert!(is_yes(" Y\n"));
    assert!(is_yes("y"));
    assert!(!is_yes("yes"));
    assert!(!is_yes(""));
}

#[test]
fn imports_add_up_and_are_reported() {
    let mut total = ImportResult::default();
    assert_eq!(collection_notice("Mix", &total), None);
    let mut one = ImportResult::default();
    one.imported = 1;
    one.errors.push(("p".to_string(), "e".to_string()));
    let mut two = ImportResult::default();
    two.imported = 0;
    two.added_to_collection = 2;
    two.collection_created = true;
    add_import(&mut total, one);
    assert_eq!(collection_notice("Mix", &total).unwrap(), "Collection: Mix (1 track)");
    add_import(&mut total, two);
    assert_eq!(total.imported, 1);
    assert_eq!(total.errors.len(), 1);
    assert_eq!(
        collection_notice("Mix", &total).unwrap(),
        "Collection created: Mix (1 track, 2 existing tracks added)"
    );
}

#[test]
fn durations_and_contexts_read_well() {
    assert_eq!(duration_text(183_400), "3:03");
    assert_eq!(duration_text(59_999), "0:59");
    assert_eq!(duration_text(600_000), "10:00");
    assert_eq!(album_context("T", &Some("A".to_string())), "A — T");
    assert_eq!(album_context("T", &Some(String::new())), "T");
    assert_eq!(album_context("T", &None), "T");
}
