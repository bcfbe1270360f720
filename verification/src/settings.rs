//! The configuration: where the library lives, how files are named, how
//! lookups behave, and their defaults.
use crate::paths::{join, joined, relative_to, strip_base};
use crate::text::{opt_view, views};
use vstd::prelude::*;

verus! {

/// The whole configuration.
#[derive(Debug)]
pub struct Settings {
    pub library: LibrarySettings,
    pub import: ImportSettings,
    pub tagging: TaggingSettings,
    pub musicbrainz: MusicBrainzSettings,
    pub player: PlayerSettings,
    pub ui: UiSettings,
}

/// How files are taken in.
#[derive(Debug, Clone, Copy, PartialEq, Eq, Structural)]
pub struct ImportSettings {
    pub organize_operation: OrganizeOperation,
    /// How many candidates a search fetches for a group.
    pub match_candidates: u32,
}

/// Where the library lives and how its files are named.
#[derive(Debug)]
pub struct LibrarySettings {
    pub music_dir: String,
    /// The directory that holds the database.
    pub data_dir: String,
    pub inbox_dirs: Vec<String>,
    pub path_template: String,
    pub path_template_single_disc: String,
    /// For collection copies, where the collection has no template of its own.
    pub collection_path_template: String,
    /// For tracks without album and collection.
    pub loose_path_template: String,
}

/// What organizing does with a file.
#[derive(Debug, Clone, Copy, PartialEq, Eq, Structural)]
pub enum OrganizeOperation {
    Move,
    Copy,
}

impl Default for OrganizeOperation {
    fn default() -> (r: Self)
        ensures
            r == OrganizeOperation::Move,
    {
        OrganizeOperation::Move
    }
}

/// Whether tags are written to files.
#[derive(Debug, Clone, Copy, PartialEq, Eq, Structural)]
pub struct TaggingSettings {
    pub write_tags: bool,
}

/// How the metadata service is asked.
#[derive(Debug, Clone, Copy, PartialEq, Eq, Structural)]
pub struct MusicBrainzSettings {
    pub rate_limit_ms: u64,
    pub name_script: NameScriptPreference,
    pub cover_art_size: CoverArtSize,
}

/// The width of downloaded front covers.
#[derive(Debug, Clone, Copy, PartialEq, Eq, Structural)]
pub enum CoverArtSize {
    Px250,
    Px500,
    Px1200,
    Original,
}

/// Which script names are taken in, where the service knows several.
#[derive(Debug, Clone, Copy, PartialEq, Eq, Structural)]
pub enum NameScriptPreference {
    /// The canonical name, whatever its script.
    Native,
    /// A name in Latin script, where there is one.
    Latin,
}

/// The external player.
#[derive(Debug)]
pub struct PlayerSettings {
    /// A full command line. The placeholders `{playlist}`, `{files}` and
    /// `{files-csv}` stand for what is played.
    pub command: Option<Vec<String>>,
    /// The name of an application, on macOS.
    pub app: Option<String>,
}

/// The look of the terminal interface.
#[derive(Debug)]
pub struct UiSettings {
    pub theme: String,
    pub show_cover_preview: bool,
}

impl Default for CoverArtSize {
    fn default() -> (r: Self)
        ensures
            r == CoverArtSize::Px500,
    {
        CoverArtSize::Px500
    }
}

impl CoverArtSize {
    /// What follows `front` in a cover's address.
    pub open spec fn suffix(self) -> Seq<char> {
        match self {
            CoverArtSize::Px250 => "-250"@,
            CoverArtSize::Px500 => "-500"@,
            CoverArtSize::Px1200 => "-1200"@,
            CoverArtSize::Original => ""@,
        }
    }

    /// What follows `front` in a cover's address; nothing for the original.
    pub fn url_suffix(self) -> (r: &'static str)
        ensures
            r@ == self.suffix(),
    {
        match self {
            CoverArtSize::Px250 => "-250",
            CoverArtSize::Px500 => "-500",
            CoverArtSize::Px1200 => "-1200",
            CoverArtSize::Original => "",
        }
    }
}

impl Default for NameScriptPreference {
    fn default() -> (r: Self)
        ensures
            r == NameScriptPreference::Native,
    {
        NameScriptPreference::Native
    }
}

impl Default for ImportSettings {
    fn default() -> (r: Self)
        ensures
            r.organize_operation == OrganizeOperation::Move,
            r.match_candidates == 5,
    {
        ImportSettings {
            organize_operation: OrganizeOperation::Move,
            match_candidates: default_match_candidates(),
        }
    }
}

impl Default for TaggingSettings {
    fn default() -> (r: Self)
        ensures
            r.write_tags,
    {
        TaggingSettings { write_tags: true }
    }
}

impl Default for MusicBrainzSettings {
    fn default() -> (r: Self)
        ensures
            r.rate_limit_ms == 1100,
            r.name_script == NameScriptPreference::Native,
            r.cover_art_size == CoverArtSize::Px500,
    {
        MusicBrainzSettings {
            rate_limit_ms: default_rate_limit(),
            name_script: NameScriptPreference::Native,
            cover_art_size: CoverArtSize::Px500,
        }
    }
}

impl Default for PlayerSettings {
    fn default() -> (r: Self)
        ensures
            r.command is None,
            r.app is None,
    {
        PlayerSettings { command: None, app: None }
    }
}

impl Default for UiSettings {
    fn default() -> (r: Self)
        ensures
            r.theme@ == "tokyo-night"@,
            r.show_cover_preview,
    {
        UiSettings { theme: default_theme(), show_cover_preview: true }
    }
}

/// The template for albums of several discs.
pub fn default_path_template() -> (r: String)
    ensures
        r@ == "{album_artist}/{album} ({year})/{disc:0}-{track:02} {title}.{ext}"@,
{
    "{album_artist}/{album} ({year})/{disc:0}-{track:02} {title}.{ext}".to_owned()
}

/// The template for albums of one disc.
pub fn default_path_template_single_disc() -> (r: String)
    ensures
        r@ == "{album_artist}/{album} ({year})/{track:02} {title}.{ext}"@,
{
    "{album_artist}/{album} ({year})/{track:02} {title}.{ext}".to_owned()
}

/// The template for collection copies.
pub fn default_collection_path_template() -> (r: String)
    ensures
        r@ == "Collections/{collection}/{position:02} {album_artist} - {title}.{ext}"@,
{
    "Collections/{collection}/{position:02} {album_artist} - {title}.{ext}".to_owned()
}

/// The template for loose tracks.
pub fn default_loose_path_template() -> (r: String)
    ensures
        r@ == "_loose/{artist} - {title}.{ext}"@,
{
    "_loose/{artist} - {title}.{ext}".to_owned()
}

/// How many candidates a search fetches.
pub fn default_match_candidates() -> (r: u32)
    ensures
        r == 5,
{
    5
}

/// Milliseconds between two requests.
pub fn default_rate_limit() -> (r: u64)
    ensures
        r == 1100,
{
    1100
}

/// The name of the default theme.
pub fn default_theme() -> (r: String)
    ensures
        r@ == "tokyo-night"@,
{
    "tokyo-night".to_owned()
}

/// Milliseconds between two requests, never less than the service's policy
/// allows.
pub fn floor_rate_limit(rate_limit_ms: u64) -> (r: u64)
    ensures
        r == (if rate_limit_ms < 1000 { 1000 } else { rate_limit_ms }),
{
    if rate_limit_ms < 1000 {
        1000
    } else {
        rate_limit_ms
    }
}

impl LibrarySettings {
    /// The defaults, given the platform's music and data directories.
    pub fn with_dirs(music_dir: String, data_dir: String) -> (r: Self)
        ensures
            r.music_dir == music_dir,
            r.data_dir == data_dir,
            r.inbox_dirs@.len() == 0,
            r.path_template@
                == "{album_artist}/{album} ({year})/{disc:0}-{track:02} {title}.{ext}"@,
            r.path_template_single_disc@
                == "{album_artist}/{album} ({year})/{track:02} {title}.{ext}"@,
            r.collection_path_template@
                == "Collections/{collection}/{position:02} {album_artist} - {title}.{ext}"@,
            r.loose_path_template@ == "_loose/{artist} - {title}.{ext}"@,
    {
        LibrarySettings {
            music_dir,
            data_dir,
            inbox_dirs: Vec::new(),
            path_template: default_path_template(),
            path_template_single_disc: default_path_template_single_disc(),
            collection_path_template: default_collection_path_template(),
            loose_path_template: default_loose_path_template(),
        }
    }

    /// The database file.
    pub fn database_file(&self) -> (r: String)
        ensures
            r@ == crate::paths::joined(self.data_dir@, "library.db"@),
    {
        join(self.data_dir.as_str(), "library.db")
    }
}

/// A path with a leading `~` replaced by the home directory, where that is
/// known.
pub open spec fn tilde_expanded(path: Seq<char>, home: Option<Seq<char>>) -> Seq<char> {
    match (home, relative_to(path, "~"@)) {
        (Some(h), Some(rest)) => joined(h, rest),
        _ => path,
    }
}

/// Expands `~` at the start of a path to the home directory.
pub fn expand_tilde(path: &str, home: &Option<String>) -> (r: String)
    ensures
        r@ == tilde_expanded(path@, opt_view(*home)),
{
    if let Some(h) = home {
        if let Some(rest) = strip_base(path, "~") {
            return join(h.as_str(), rest.as_str());
        }
    }
    path.to_owned()
}

/// Paths with a leading `~` expanded.
pub open spec fn all_expanded(paths: Seq<Seq<char>>, home: Option<Seq<char>>) -> Seq<Seq<char>> {
    paths.map_values(|p: Seq<char>| tilde_expanded(p, home))
}

fn expand_all(paths: &Vec<String>, home: &Option<String>) -> (r: Vec<String>)
    ensures
        views(r@) == all_expanded(views(paths@), opt_view(*home)),
{
    let mut out: Vec<String> = Vec::new();
    let ghost all = all_expanded(views(paths@), opt_view(*home));
    let n: usize = paths.len();
    let mut i: usize = 0;
    while i < n
        invariant
            i <= n,
            n == paths@.len(),
            all == all_expanded(views(paths@), opt_view(*home)),
            views(out@) == all.take(i as int),
        decreases n - i,
    {
        let ghost before = out@;
        let p = expand_tilde(paths[i].as_str(), home);
        out.push(p);
        i += 1;
        assert(views(out@) =~= views(before).push(p@));
        assert(all.take(i as int) =~= all.take(i - 1).push(all[i - 1]));
    }
    assert(all.take(n as int) =~= all);
    out
}

impl Settings {
    /// The defaults, given the platform's music and data directories.
    pub fn with_dirs(music_dir: String, data_dir: String) -> (r: Self)
        ensures
            r.library.music_dir == music_dir,
            r.library.data_dir == data_dir,
            r.library.inbox_dirs@.len() == 0,
            r.library.path_template@
                == "{album_artist}/{album} ({year})/{disc:0}-{track:02} {title}.{ext}"@,
            r.library.path_template_single_disc@
                == "{album_artist}/{album} ({year})/{track:02} {title}.{ext}"@,
            r.library.collection_path_template@
                == "Collections/{collection}/{position:02} {album_artist} - {title}.{ext}"@,
            r.library.loose_path_template@ == "_loose/{artist} - {title}.{ext}"@,
            r.import.organize_operation == OrganizeOperation::Move,
            r.import.match_candidates == 5,
            r.tagging.write_tags,
            r.musicbrainz.rate_limit_ms == 1100,
            r.musicbrainz.name_script == NameScriptPreference::Native,
            r.musicbrainz.cover_art_size == CoverArtSize::Px500,
            r.player.command is None,
            r.player.app is None,
            r.ui.theme@ == "tokyo-night"@,
            r.ui.show_cover_preview,
    {
        Settings {
            library: LibrarySettings::with_dirs(music_dir, data_dir),
            import: ImportSettings::default(),
            tagging: TaggingSettings::default(),
            musicbrainz: MusicBrainzSettings::default(),
            player: PlayerSettings::default(),
            ui: UiSettings::default(),
        }
    }

    /// The database file, wherever the configuration puts it.
    pub fn database_file(&self) -> (r: String)
        ensures
            r@ == joined(self.library.data_dir@, "library.db"@),
    {
        self.library.database_file()
    }

    /// Puts a configuration as it was read into force: paths may begin with
    /// `~`, and requests are spaced no closer than the service's policy
    /// allows. Everything else stays.
    pub fn normalize(&mut self, home: &Option<String>)
        ensures
            final(self).library.music_dir@ == tilde_expanded(
                old(self).library.music_dir@,
                opt_view(*home),
            ),
            final(self).library.data_dir@ == tilde_expanded(
                old(self).library.data_dir@,
                opt_view(*home),
            ),
            views(final(self).library.inbox_dirs@) == all_expanded(
                views(old(self).library.inbox_dirs@),
                opt_view(*home),
            ),
            final(self).musicbrainz.rate_limit_ms == (if old(self).musicbrainz.rate_limit_ms
                < 1000 {
                1000
            } else {
                old(self).musicbrainz.rate_limit_ms
            }),
            final(self).library.path_template == old(self).library.path_template,
            final(self).library.path_template_single_disc
                == old(self).library.path_template_single_disc,
            final(self).library.collection_path_template
                == old(self).library.collection_path_template,
            final(self).library.loose_path_template == old(self).library.loose_path_template,
            final(self).musicbrainz.name_script == old(self).musicbrainz.name_script,
            final(self).musicbrainz.cover_art_size == old(self).musicbrainz.cover_art_size,
            final(self).import == old(self).import,
            final(self).tagging == old(self).tagging,
            final(self).player == old(self).player,
            final(self).ui == old(self).ui,
    {
        self.library.music_dir = expand_tilde(self.library.music_dir.as_str(), home);
        self.library.data_dir = expand_tilde(self.library.data_dir.as_str(), home);
        self.library.inbox_dirs = expand_all(&self.library.inbox_dirs, home);
        self.musicbrainz.rate_limit_ms = floor_rate_limit(self.musicbrainz.rate_limit_ms);
    }
}

/// The directory of the application below a platform directory, which has
/// a stand-in where it is unknown.
pub open spec fn app_dir(platform: Option<Seq<char>>, standin: Seq<char>) -> Seq<char> {
    joined(
        match platform {
            Some(d) => d,
            None => standin,
        },
        "kyoku"@,
    )
}

fn own_dir(platform: &Option<String>, standin: &str) -> (r: String)
    ensures
        r@ == app_dir(opt_view(*platform), standin@),
{
    match platform {
        Some(d) => join(d.as_str(), "kyoku"),
        None => join(standin, "kyoku"),
    }
}

/// The configuration directory, given the platform's.
pub fn config_dir(platform: &Option<String>) -> (r: String)
    ensures
        r@ == app_dir(opt_view(*platform), "~/.config"@),
{
    own_dir(platform, "~/.config")
}

/// The data directory, given the platform's.
pub fn default_data_dir(platform: &Option<String>) -> (r: String)
    ensures
        r@ == app_dir(opt_view(*platform), "~/.local/share"@),
{
    own_dir(platform, "~/.local/share")
}

/// The cache directory, given the platform's.
pub fn cache_dir(platform: &Option<String>) -> (r: String)
    ensures
        r@ == app_dir(opt_view(*platform), "~/.cache"@),
{
    own_dir(platform, "~/.cache")
}

/// The configuration file, given the platform's configuration directory.
pub fn config_file(platform: &Option<String>) -> (r: String)
    ensures
        r@ == joined(app_dir(opt_view(*platform), "~/.config"@), "config.toml"@),
{
    join(config_dir(platform).as_str(), "config.toml")
}

/// The database file, given the platform's data directory.
pub fn database_file(platform: &Option<String>) -> (r: String)
    ensures
        r@ == joined(app_dir(opt_view(*platform), "~/.local/share"@), "library.db"@),
{
    join(default_data_dir(platform).as_str(), "library.db")
}

/// The default music directory, given the home directory.
pub fn default_music_dir(home: &Option<String>) -> (r: String)
    ensures
        r@ == joined(
            match opt_view(*home) {
                Some(h) => h,
                None => "~"@,
            },
            "Music"@,
        ),
{
    match home {
        Some(h) => join(h.as_str(), "Music"),
        None => join("~", "Music"),
    }
}

/// Why a directory cannot be the managed library, given what was found on
/// disk: whether it is there, whether it is a directory, and what trying to
/// write in it came to.
pub fn library_dir_fault(
    path: &str,
    exists: bool,
    is_dir: bool,
    write_error: &Option<String>,
) -> (r: Option<String>)
    ensures
        opt_view(r) == (if !exists {
            Some("does not exist: "@ + path@)
        } else if !is_dir {
            Some("not a directory: "@ + path@)
        } else if write_error is Some {
            Some("not writable ("@ + write_error->0@ + ")"@)
        } else {
            None
        }),
{
    if !exists {
        let mut s = "does not exist: ".to_owned();
        s.append(path);
        Some(s)
    } else if !is_dir {
        let mut s = "not a directory: ".to_owned();
        s.append(path);
        Some(s)
    } else {
        match write_error {
            Some(e) => {
                let mut s = "not writable (".to_owned();
                s.append(e.as_str());
                s.append(")");
                Some(s)
            },
            None => None,
        }
    }
}


/// A path that begins with `~` moves below the home directory; any other path
/// stays, and so does every path where no home is known.
pub proof fn law_tildes_stand_for_the_home_directory(path: Seq<char>, home: Seq<char>)
    requires
        home.len() > 0,
    ensures
        tilde_expanded(path, None) == path,
        crate::paths::comps(path).len() > 1 && crate::paths::comps(path)[0] == seq!['~']
            ==> crate::paths::comps(tilde_expanded(path, Some(home))) == crate::paths::comps(home)
            + crate::paths::comps(path).skip(1),
        crate::paths::comps(path).len() > 0 && crate::paths::comps(path)[0] != seq!['~']
            ==> tilde_expanded(path, Some(home)) == path,
{
    reveal_strlit("~");
    let t = "~"@;
    assert(t =~= seq!['~']);
    assert(crate::paths::comps(t) =~= seq![seq!['~']]) by {
        assert(crate::paths::next_slash(t, 0) == 1) by {
            reveal_with_fuel(crate::paths::next_slash, 3);
        }
        assert(crate::paths::spans_from(t, 0) =~= seq![(0int, 1int)]) by {
            reveal_with_fuel(crate::paths::spans_from, 3);
        }
        assert(crate::paths::spans(t) =~= seq![(0int, 1int)]);
        assert(t.subrange(0, 1) =~= seq!['~']);
    }
    let c = crate::paths::comps(path);
    crate::paths::law_relative_paths_leave_out_the_base(path, t);
    if c.len() > 0 {
        assert(c.take(1) =~= seq![c[0]]);
        assert(seq![c[0]][0] == c[0] && seq![seq!['~']][0] == seq!['~']);
    }
    if c.len() > 1 && c[0] == seq!['~'] {
        let rest = relative_to(path, t)->0;
        crate::paths::lemma_spans(path);
        crate::paths::lemma_tail(path, 1);
        crate::paths::lemma_joined(home, rest);
    }
}

} // verus!
