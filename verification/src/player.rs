//! Handing files to an external player: which player, which command line,
//! and which files.
use std::collections::HashMap;
use vstd::prelude::*;

use crate::error::KyokuError;
use crate::paths::{extension, ext_of_path, file_stem, join, joined, stem_of_path};
use crate::rows::{copy_text, TrackRow};
use crate::settings::{PlayerSettings, Settings};
use crate::text::{
    begins, chars_of, contains_text, copy_all, decimal, has_text, holds, join_texts, joined_texts,
    lemma_first_line, lemma_lines_add, lines_of, lowercased, number_text, opt_chars, opt_view, pieces, replace_text, replaced, same, split_on,
    to_lower, trim, trimmed, views,
};

verus! {

// ---------------------------------------------------------------------------
// What is played

/// A file to play, with what a playlist says of it.
#[derive(Debug, Clone)]
pub struct PlayItem {
    pub path: String,
    pub title: String,
    pub artist: Option<String>,
    pub duration_ms: Option<u64>,
}

impl PlayItem {
    /// An item made of a bare path, titled by the stem of its name.
    pub fn from_path(path: String) -> (r: Self)
        ensures
            r.path == path,
            r.title@ == (match stem_of_path(path@) {
                Some(stem) => stem,
                None => "?"@,
            }),
            r.artist is None,
            r.duration_ms is None,
    {
        let title = match file_stem(path.as_str()) {
            Some(stem) => stem,
            None => "?".to_owned(),
        };
        PlayItem { path, title, artist: None, duration_ms: None }
    }
}

/// How a player receives the files.
#[derive(Debug, Clone, Copy, PartialEq, Eq, Structural)]
pub enum Transport {
    /// By one path: a playlist, or the file itself where there is just one.
    Playlist,
    /// By the paths of the files.
    FileList,
}

/// A chosen player.
#[derive(Debug, Clone)]
pub struct ResolvedPlayer {
    /// A short name for messages.
    pub label: String,
    /// The command line, with placeholders.
    pub argv: Vec<String>,
    pub transport: Transport,
}

/// All that launching a player takes.
#[derive(Debug, Clone)]
pub struct PlayOutcome {
    pub player_label: String,
    pub argv: Vec<String>,
    /// Where the playlist goes, where there is one.
    pub playlist_path: Option<String>,
    pub played: usize,
    /// Items left out because the file is missing or its path cannot be
    /// handed over.
    pub skipped_missing: usize,
}

/// What is put in place of the placeholders.
#[derive(Debug)]
pub enum PlayTarget {
    SingleFile(String),
    Playlist(String),
    FileList(Vec<String>),
}

/// The path that a track plays from: its collection copy, where one is
/// recorded and on disk, else its own file.
pub open spec fn path_to_play(
    row: TrackRow,
    copies: Option<Map<i64, String>>,
    on_disk: Seq<Seq<char>>,
) -> Seq<char> {
    match copies {
        Some(m) => if m.dom().contains(row.id) && on_disk.contains(m[row.id]@) {
            m[row.id]@
        } else {
            row.file_path@
        },
        None => row.file_path@,
    }
}

/// The contents of an optional map.
pub open spec fn opt_map(o: Option<&HashMap<i64, String>>) -> Option<Map<i64, String>> {
    match o {
        Some(m) => Some(m@),
        None => None,
    }
}

/// Items for tracks, in order. `on_disk` lists the collection copies that
/// are on disk.
pub fn items_from_rows(
    rows: &Vec<TrackRow>,
    collection_paths: Option<&HashMap<i64, String>>,
    on_disk: &Vec<String>,
) -> (r: Vec<PlayItem>)
    ensures
        r@.len() == rows@.len(),
        forall|k: int|
            0 <= k < r@.len() ==> {
                &&& (#[trigger] r@[k]).path@ == path_to_play(
                    rows@[k],
                    opt_map(collection_paths),
                    views(on_disk@),
                )
                &&& r@[k].title == rows@[k].title
                &&& r@[k].artist == rows@[k].artist
                &&& r@[k].duration_ms == rows@[k].duration_ms
            },
{
    broadcast use vstd::std_specs::hash::group_hash_axioms;

    let mut out: Vec<PlayItem> = Vec::new();
    let n: usize = rows.len();
    let mut i: usize = 0;
    while i < n
        invariant
            i <= n,
            n == rows@.len(),
            out@.len() == i,
            forall|k: int|
                0 <= k < i ==> {
                    &&& (#[trigger] out@[k]).path@ == path_to_play(
                        rows@[k],
                        opt_map(collection_paths),
                        views(on_disk@),
                    )
                    &&& out@[k].title == rows@[k].title
                    &&& out@[k].artist == rows@[k].artist
                    &&& out@[k].duration_ms == rows@[k].duration_ms
                },
        decreases n - i,
    {
        let row = &rows[i];
        let copy: Option<String> = match collection_paths {
            Some(m) => match m.get(&row.id) {
                Some(p) => if holds(on_disk, p.as_str()) {
                    Some(p.clone())
                } else {
                    None
                },
                None => None,
            },
            None => None,
        };
        let path = match copy {
            Some(p) => p,
            None => row.file_path.clone(),
        };
        out.push(
            PlayItem {
                path,
                title: row.title.clone(),
                artist: copy_text(&row.artist),
                duration_ms: row.duration_ms,
            },
        );
        i += 1;
    }
    out
}

// ---------------------------------------------------------------------------
// The playlist

/// The name of the playlist file. It is written anew each time and never
/// deleted, for players read it late.
pub open spec fn playlist_name() -> Seq<char> {
    "kyoku-play.m3u8"@
}

/// Line breaks as spaces.
pub open spec fn one_line(s: Seq<char>) -> Seq<char> {
    s.map_values(|c: char| if c == '\n' || c == '\r' { ' ' } else { c })
}

/// What a playlist calls an item.
pub open spec fn display_name(item: PlayItem) -> Seq<char> {
    match item.artist {
        Some(a) => if a@.len() > 0 { a@ + " - "@ + item.title@ } else { item.title@ },
        None => item.title@,
    }
}

/// The length of an item in seconds, rounded, or minus one.
pub open spec fn seconds_text(ms: Option<u64>) -> Seq<char> {
    match ms {
        Some(ms) => decimal(((ms + 500) / 1000) as nat),
        None => "-1"@,
    }
}

/// The two lines of an item.
pub open spec fn entry_text(item: PlayItem) -> Seq<char> {
    "#EXTINF:"@ + seconds_text(item.duration_ms) + ","@ + one_line(display_name(item)) + "\n"@
        + item.path@ + "\n"@
}

/// A playlist.
pub open spec fn playlist_text(items: Seq<PlayItem>) -> Seq<char>
    decreases items.len(),
{
    if items.len() == 0 {
        "#EXTM3U\n"@
    } else {
        playlist_text(items.drop_last()) + entry_text(items.last())
    }
}

fn flatten_lines(s: &str) -> (r: String)
    ensures
        r@ == one_line(s@),
{
    let v = chars_of(s);
    let mut out = String::new();
    let mut i: usize = 0;
    while i < v.len()
        invariant
            i <= v@.len(),
            v@ == s@,
            out@ == one_line(s@).take(i as int),
        decreases v@.len() - i,
    {
        let c = v[i];
        if c == '\n' || c == '\r' {
            out.push(' ');
        } else {
            out.push(c);
        }
        i += 1;
        assert(one_line(s@).take(i as int) =~= one_line(s@).take(i - 1).push(one_line(s@)[i - 1]));
    }
    assert(one_line(s@).take(s@.len() as int) =~= one_line(s@));
    out
}

/// The contents of a playlist file.
pub fn render_playlist(items: &Vec<PlayItem>) -> (r: String)
    ensures
        r@ == playlist_text(items@),
{
    let mut out = "#EXTM3U\n".to_owned();
    let n: usize = items.len();
    let mut i: usize = 0;
    while i < n
        invariant
            i <= n,
            n == items@.len(),
            out@ == playlist_text(items@.take(i as int)),
        decreases n - i,
    {
        let item = &items[i];
        let ghost before = out@;
        let mut name = String::new();
        if let Some(a) = &item.artist {
            let cs = chars_of(a.as_str());
            if cs.len() > 0 {
                name.append(a.as_str());
                name.append(" - ");
            }
        }
        name.append(item.title.as_str());
        assert(name@ =~= display_name(*item));
        out.append("#EXTINF:");
        match item.duration_ms {
            Some(ms) => {
                let secs: u128 = (ms as u128 + 500) / 1000;
                out.append(number_text(secs as u64).as_str());
            },
            None => {
                out.append("-1");
            },
        }
        out.append(",");
        out.append(flatten_lines(name.as_str()).as_str());
        out.append("\n");
        out.append(item.path.as_str());
        out.append("\n");
        i += 1;
        proof {
            assert(items@.take(i as int).drop_last() =~= items@.take(i - 1));
            assert(items@.take(i as int).last() == *item);
            assert(out@ =~= before + entry_text(*item));
        }
    }
    assert(items@.take(n as int) =~= items@);
    out
}

/// How often a character occurs.
pub open spec fn occurrences(s: Seq<char>, c: char) -> nat
    decreases s.len(),
{
    if s.len() == 0 {
        0
    } else {
        occurrences(s.drop_last(), c) + if s.last() == c { 1nat } else { 0nat }
    }
}

proof fn lemma_occurrences_add(a: Seq<char>, b: Seq<char>, c: char)
    ensures
        occurrences(a + b, c) == occurrences(a, c) + occurrences(b, c),
    decreases b.len(),
{
    if b.len() == 0 {
        assert(a + b =~= a);
    } else {
        assert((a + b).drop_last() =~= a + b.drop_last());
        lemma_occurrences_add(a, b.drop_last(), c);
    }
}

proof fn lemma_no_occurrence(s: Seq<char>, c: char)
    requires
        !s.contains(c),
    ensures
        occurrences(s, c) == 0,
    decreases s.len(),
{
    if s.len() > 0 {
        assert(s[s.len() - 1] == s.last());
        assert forall|i: int| 0 <= i < s.drop_last().len() implies s.drop_last()[i] != c by {
            assert(s.drop_last()[i] == s[i]);
        }
        lemma_no_occurrence(s.drop_last(), c);
    }
}

proof fn lemma_digits_hold_no_break(n: nat)
    ensures
        !decimal(n).contains('\n'),
    decreases n,
{
    if n >= 10 {
        lemma_digits_hold_no_break(n / 10);
        assert forall|i: int| 0 <= i < decimal(n).len() implies decimal(n)[i] != '\n' by {
            if i < decimal(n / 10).len() {
                assert(decimal(n)[i] == decimal(n / 10)[i]);
            }
        }
    }
}

proof fn lemma_entry_lines(item: PlayItem)
    requires
        !item.path@.contains('\n'),
    ensures
        occurrences(entry_text(item), '\n') == 2,
{
    reveal_strlit("#EXTINF:");
    reveal_strlit(",");
    reveal_strlit("-1");
    reveal_strlit("\n");
    let a = "#EXTINF:"@;
    let b = seconds_text(item.duration_ms);
    let c = ","@;
    let d = one_line(display_name(item));
    let e = "\n"@;
    let f = item.path@;
    assert(!a.contains('\n'));
    assert(!c.contains('\n'));
    if let Some(ms) = item.duration_ms {
        lemma_digits_hold_no_break(((ms + 500) / 1000) as nat);
    } else {
        assert(!b.contains('\n'));
    }
    assert forall|i: int| 0 <= i < d.len() implies d[i] != '\n' by {
        assert(d[i] == if display_name(item)[i] == '\n' || display_name(item)[i] == '\r' {
            ' '
        } else {
            display_name(item)[i]
        });
    }
    assert(e.drop_last() =~= Seq::<char>::empty());
    assert(occurrences(e.drop_last(), '\n') == 0);
    assert(occurrences(e, '\n') == 1);
    lemma_no_occurrence(a, '\n');
    lemma_no_occurrence(b, '\n');
    lemma_no_occurrence(c, '\n');
    lemma_no_occurrence(d, '\n');
    lemma_no_occurrence(f, '\n');
    lemma_occurrences_add(a, b, '\n');
    lemma_occurrences_add(a + b, c, '\n');
    lemma_occurrences_add(a + b + c, d, '\n');
    lemma_occurrences_add(a + b + c + d, e, '\n');
    lemma_occurrences_add(a + b + c + d + e, f, '\n');
    lemma_occurrences_add(a + b + c + d + e + f, e, '\n');
}

/// A playlist of paths without line breaks has a heading and two lines for
/// each item, whatever its title and artist hold.
pub proof fn law_playlist_has_two_lines_per_item(items: Seq<PlayItem>)
    requires
        forall|k: int| 0 <= k < items.len() ==> !(#[trigger] items[k]).path@.contains('\n'),
    ensures
        occurrences(playlist_text(items), '\n') == 1 + 2 * items.len(),
    decreases items.len(),
{
    if items.len() == 0 {
        reveal_strlit("#EXTM3U\n");
        let h = "#EXTM3U\n"@;
        assert(h.last() == '\n');
        assert(!h.drop_last().contains('\n'));
        lemma_no_occurrence(h.drop_last(), '\n');
    } else {
        assert forall|k: int| 0 <= k < items.drop_last().len() implies !(
        #[trigger] items.drop_last()[k]).path@.contains('\n') by {
            assert(items.drop_last()[k] == items[k]);
        }
        law_playlist_has_two_lines_per_item(items.drop_last());
        assert(items[items.len() - 1] == items.last());
        lemma_entry_lines(items.last());
        lemma_occurrences_add(playlist_text(items.drop_last()), entry_text(items.last()), '\n');
    }
}

// ---------------------------------------------------------------------------
// Finding a player

/// A platform.
#[derive(Debug, Clone, Copy, PartialEq, Eq, Structural)]
pub enum Os {
    Linux,
    MacOS,
    Windows,
}

/// What is asked of a machine when a player is looked for.
pub trait Probes {
    /// Whether a program of this name is on the search path.
    fn which(&self, bin: &str) -> bool;

    /// Whether an application of this name is installed.
    fn app_exists(&self, app: &str) -> bool;

    /// The full path of a program below the directories for programs.
    fn program_file(&self, rel: &str) -> Option<String>;

    /// The platform.
    fn os(&self) -> Os;
}

/// What a machine was found to have.
#[derive(Debug)]
pub struct RealProbes {
    pub os: Os,
    /// The programs on the search path.
    pub bins: Vec<String>,
    /// The applications that are installed.
    pub apps: Vec<String>,
    /// Programs below the directories for programs, with their full paths.
    pub program_files: Vec<(String, String)>,
}

/// The full path that is listed for a program.
pub open spec fn path_listed(files: Seq<(String, String)>, rel: Seq<char>) -> Option<Seq<char>>
    decreases files.len(),
{
    if files.len() == 0 {
        None
    } else if files[0].0@ == rel {
        Some(files[0].1@)
    } else {
        path_listed(files.skip(1), rel)
    }
}

impl RealProbes {
    /// Whether a program of this name is on the search path.
    pub open spec fn runs(self, bin: Seq<char>) -> bool {
        views(self.bins@).contains(bin)
    }

    /// Whether an application of this name is installed.
    pub open spec fn installed(self, app: Seq<char>) -> bool {
        views(self.apps@).contains(app)
    }

    /// Where a program stands below the directories for programs.
    pub open spec fn located(self, rel: Seq<char>) -> Option<Seq<char>> {
        path_listed(self.program_files@, rel)
    }
}

impl Probes for RealProbes {
    fn which(&self, bin: &str) -> (r: bool)
        ensures
            r == self.runs(bin@),
    {
        holds(&self.bins, bin)
    }

    fn app_exists(&self, app: &str) -> (r: bool)
        ensures
            r == self.installed(app@),
    {
        holds(&self.apps, app)
    }

    fn program_file(&self, rel: &str) -> (r: Option<String>)
        ensures
            opt_view(r) == self.located(rel@),
    {
        let n: usize = self.program_files.len();
        let mut i: usize = 0;
        assert(self.program_files@.skip(0) =~= self.program_files@);
        while i < n
            invariant
                i <= n,
                n == self.program_files@.len(),
                path_listed(self.program_files@, rel@) == path_listed(
                    self.program_files@.skip(i as int),
                    rel@,
                ),
            decreases n - i,
        {
            assert(self.program_files@.skip(i as int)[0] == self.program_files@[i as int]);
            assert(self.program_files@.skip(i as int).skip(1) =~= self.program_files@.skip(i + 1));
            if same(self.program_files[i].0.as_str(), rel) {
                return Some(self.program_files[i].1.clone());
            }
            i += 1;
        }
        None
    }

    fn os(&self) -> (r: Os)
        ensures
            r == self.os,
    {
        self.os
    }
}

/// How a player is recognised.
#[derive(Debug)]
pub enum Probe {
    /// By a program on the search path.
    Bin(&'static str),
    /// By an application.
    App(&'static str),
    /// By a program below the directories for programs, whose path goes in
    /// the place of `{exe}`.
    ProgramFile(&'static str),
}

/// A player that can be found.
#[derive(Debug)]
pub struct DetectEntry {
    pub label: &'static str,
    pub probe: Probe,
    pub argv: Vec<&'static str>,
}

/// How a player is recognised.
pub enum Sign {
    Bin(Seq<char>),
    App(Seq<char>),
    ProgramFile(Seq<char>),
}

/// A player that can be found.
pub struct Entry {
    pub label: Seq<char>,
    pub sign: Sign,
    pub argv: Seq<Seq<char>>,
}

/// Borrowed texts by their characters.
pub open spec fn str_views(v: Seq<&'static str>) -> Seq<Seq<char>> {
    v.map_values(|s: &'static str| s@)
}

/// How a player is recognised.
pub open spec fn sign_of(p: Probe) -> Sign {
    match p {
        Probe::Bin(s) => Sign::Bin(s@),
        Probe::App(s) => Sign::App(s@),
        Probe::ProgramFile(s) => Sign::ProgramFile(s@),
    }
}

/// A player that can be found.
pub open spec fn entry_view(e: DetectEntry) -> Entry {
    Entry { label: e.label@, sign: sign_of(e.probe), argv: str_views(e.argv@) }
}

/// Players that can be found.
pub open spec fn entry_views(v: Seq<DetectEntry>) -> Seq<Entry> {
    v.map_values(|e: DetectEntry| entry_view(e))
}

/// The players looked for on Linux, in order.
pub open spec fn linux_players() -> Seq<Entry> {
    seq![
        Entry { label: "mpv"@, sign: Sign::Bin("mpv"@), argv: seq!["mpv"@, "--playlist={playlist}"@] },
        Entry { label: "VLC"@, sign: Sign::Bin("vlc"@), argv: seq!["vlc"@, "{playlist}"@] },
        Entry { label: "Celluloid"@, sign: Sign::Bin("celluloid"@), argv: seq!["celluloid"@, "{playlist}"@] },
        Entry { label: "Haruna"@, sign: Sign::Bin("haruna"@), argv: seq!["haruna"@, "{playlist}"@] },
        Entry { label: "Strawberry"@, sign: Sign::Bin("strawberry"@), argv: seq!["strawberry"@, "--load"@, "{playlist}"@] },
        Entry { label: "Clementine"@, sign: Sign::Bin("clementine"@), argv: seq!["clementine"@, "--load"@, "{playlist}"@] },
        Entry { label: "Audacious"@, sign: Sign::Bin("audacious"@), argv: seq!["audacious"@, "-E"@, "{playlist}"@] },
        Entry { label: "DeaDBeeF"@, sign: Sign::Bin("deadbeef"@), argv: seq!["deadbeef"@, "{playlist}"@] },
        Entry { label: "Amberol"@, sign: Sign::Bin("amberol"@), argv: seq!["amberol"@, "{files}"@] },
        Entry { label: "Quod Libet"@, sign: Sign::Bin("quodlibet"@), argv: seq!["quodlibet"@, "--enqueue-files={files-csv}"@] },
    ]
}

/// The players looked for on macOS, in order. Music comes last, for by
/// default it copies what it is given.
pub open spec fn mac_players() -> Seq<Entry> {
    seq![
        Entry { label: "mpv"@, sign: Sign::Bin("mpv"@), argv: seq!["mpv"@, "--playlist={playlist}"@] },
        Entry { label: "IINA"@, sign: Sign::App("IINA"@), argv: seq!["open"@, "-a"@, "IINA"@, "{playlist}"@] },
        Entry { label: "VLC"@, sign: Sign::App("VLC"@), argv: seq!["open"@, "-a"@, "VLC"@, "{playlist}"@] },
        Entry { label: "foobar2000"@, sign: Sign::App("foobar2000"@), argv: seq!["open"@, "-a"@, "foobar2000"@, "{playlist}"@] },
        Entry { label: "Swinsian"@, sign: Sign::App("Swinsian"@), argv: seq!["open"@, "-a"@, "Swinsian"@, "{playlist}"@] },
        Entry { label: "Cog"@, sign: Sign::App("Cog"@), argv: seq!["open"@, "-a"@, "Cog"@, "{playlist}"@] },
        Entry { label: "Music"@, sign: Sign::App("Music"@), argv: seq!["open"@, "-a"@, "Music"@, "{playlist}"@] },
    ]
}

/// The players looked for on Windows, in order: first what is on the search
/// path, then what stands in the usual places.
pub open spec fn windows_players() -> Seq<Entry> {
    seq![
        Entry { label: "mpv"@, sign: Sign::Bin("mpv"@), argv: seq!["mpv"@, "--playlist={playlist}"@] },
        Entry { label: "VLC"@, sign: Sign::Bin("vlc"@), argv: seq!["vlc"@, "{playlist}"@] },
        Entry { label: "foobar2000"@, sign: Sign::ProgramFile("foobar2000\\foobar2000.exe"@), argv: seq!["{exe}"@, "{playlist}"@] },
        Entry { label: "VLC"@, sign: Sign::ProgramFile("VideoLAN\\VLC\\vlc.exe"@), argv: seq!["{exe}"@, "{playlist}"@] },
    ]
}

/// The players looked for on a platform, in order.
pub open spec fn players(os: Os) -> Seq<Entry> {
    match os {
        Os::Linux => linux_players(),
        Os::MacOS => mac_players(),
        Os::Windows => windows_players(),
    }
}

fn linux_table() -> (r: Vec<DetectEntry>)
    ensures
        entry_views(r@) == linux_players(),
{
    let r = vec![
        DetectEntry { label: "mpv", probe: Probe::Bin("mpv"), argv: vec!["mpv", "--playlist={playlist}"] },
        DetectEntry { label: "VLC", probe: Probe::Bin("vlc"), argv: vec!["vlc", "{playlist}"] },
        DetectEntry { label: "Celluloid", probe: Probe::Bin("celluloid"), argv: vec!["celluloid", "{playlist}"] },
        DetectEntry { label: "Haruna", probe: Probe::Bin("haruna"), argv: vec!["haruna", "{playlist}"] },
        DetectEntry { label: "Strawberry", probe: Probe::Bin("strawberry"), argv: vec!["strawberry", "--load", "{playlist}"] },
        DetectEntry { label: "Clementine", probe: Probe::Bin("clementine"), argv: vec!["clementine", "--load", "{playlist}"] },
        DetectEntry { label: "Audacious", probe: Probe::Bin("audacious"), argv: vec!["audacious", "-E", "{playlist}"] },
        DetectEntry { label: "DeaDBeeF", probe: Probe::Bin("deadbeef"), argv: vec!["deadbeef", "{playlist}"] },
        DetectEntry { label: "Amberol", probe: Probe::Bin("amberol"), argv: vec!["amberol", "{files}"] },
        DetectEntry { label: "Quod Libet", probe: Probe::Bin("quodlibet"), argv: vec!["quodlibet", "--enqueue-files={files-csv}"] },
    ];
    proof {
        assert(entry_view(r@[0]).argv =~= linux_players()[0].argv);
        assert(entry_view(r@[1]).argv =~= linux_players()[1].argv);
        assert(entry_view(r@[2]).argv =~= linux_players()[2].argv);
        assert(entry_view(r@[3]).argv =~= linux_players()[3].argv);
        assert(entry_view(r@[4]).argv =~= linux_players()[4].argv);
        assert(entry_view(r@[5]).argv =~= linux_players()[5].argv);
        assert(entry_view(r@[6]).argv =~= linux_players()[6].argv);
        assert(entry_view(r@[7]).argv =~= linux_players()[7].argv);
        assert(entry_view(r@[8]).argv =~= linux_players()[8].argv);
        assert(entry_view(r@[9]).argv =~= linux_players()[9].argv);
        assert(entry_views(r@) =~= linux_players());
    }
    r
}

fn mac_table() -> (r: Vec<DetectEntry>)
    ensures
        entry_views(r@) == mac_players(),
{
    let r = vec![
        DetectEntry { label: "mpv", probe: Probe::Bin("mpv"), argv: vec!["mpv", "--playlist={playlist}"] },
        DetectEntry { label: "IINA", probe: Probe::App("IINA"), argv: vec!["open", "-a", "IINA", "{playlist}"] },
        DetectEntry { label: "VLC", probe: Probe::App("VLC"), argv: vec!["open", "-a", "VLC", "{playlist}"] },
        DetectEntry { label: "foobar2000", probe: Probe::App("foobar2000"), argv: vec!["open", "-a", "foobar2000", "{playlist}"] },
        DetectEntry { label: "Swinsian", probe: Probe::App("Swinsian"), argv: vec!["open", "-a", "Swinsian", "{playlist}"] },
        DetectEntry { label: "Cog", probe: Probe::App("Cog"), argv: vec!["open", "-a", "Cog", "{playlist}"] },
        DetectEntry { label: "Music", probe: Probe::App("Music"), argv: vec!["open", "-a", "Music", "{playlist}"] },
    ];
    proof {
        assert(entry_view(r@[0]).argv =~= mac_players()[0].argv);
        assert(entry_view(r@[1]).argv =~= mac_players()[1].argv);
        assert(entry_view(r@[2]).argv =~= mac_players()[2].argv);
        assert(entry_view(r@[3]).argv =~= mac_players()[3].argv);
        assert(entry_view(r@[4]).argv =~= mac_players()[4].argv);
        assert(entry_view(r@[5]).argv =~= mac_players()[5].argv);
        assert(entry_view(r@[6]).argv =~= mac_players()[6].argv);
        assert(entry_views(r@) =~= mac_players());
    }
    r
}

fn windows_table() -> (r: Vec<DetectEntry>)
    ensures
        entry_views(r@) == windows_players(),
{
    let r = vec![
        DetectEntry { label: "mpv", probe: Probe::Bin("mpv"), argv: vec!["mpv", "--playlist={playlist}"] },
        DetectEntry { label: "VLC", probe: Probe::Bin("vlc"), argv: vec!["vlc", "{playlist}"] },
        DetectEntry { label: "foobar2000", probe: Probe::ProgramFile("foobar2000\\foobar2000.exe"), argv: vec!["{exe}", "{playlist}"] },
        DetectEntry { label: "VLC", probe: Probe::ProgramFile("VideoLAN\\VLC\\vlc.exe"), argv: vec!["{exe}", "{playlist}"] },
    ];
    proof {
        assert(entry_view(r@[0]).argv =~= windows_players()[0].argv);
        assert(entry_view(r@[1]).argv =~= windows_players()[1].argv);
        assert(entry_view(r@[2]).argv =~= windows_players()[2].argv);
        assert(entry_view(r@[3]).argv =~= windows_players()[3].argv);
        assert(entry_views(r@) =~= windows_players());
    }
    r
}

/// The players looked for on a platform, in order.
pub fn detection_table(os: Os) -> (r: Vec<DetectEntry>)
    ensures
        entry_views(r@) == players(os),
{
    match os {
        Os::Linux => linux_table(),
        Os::MacOS => mac_table(),
        Os::Windows => windows_table(),
    }
}

/// A chosen player by its characters.
pub struct Chosen {
    pub label: Seq<char>,
    pub argv: Seq<Seq<char>>,
    pub transport: Transport,
}

/// A chosen player by its characters.
pub open spec fn chosen_view(p: ResolvedPlayer) -> Chosen {
    Chosen { label: p.label@, argv: views(p.argv@), transport: p.transport }
}

/// Whether some argument holds a placeholder for files.
pub open spec fn takes_files(argv: Seq<Seq<char>>) -> bool {
    exists|i: int|
        0 <= i < argv.len() && (has_text(#[trigger] argv[i], "{files-csv}"@) || has_text(
            argv[i],
            "{files}"@,
        ))
}

/// How a command line receives the files.
pub open spec fn transport_of(argv: Seq<Seq<char>>) -> Transport {
    if takes_files(argv) { Transport::FileList } else { Transport::Playlist }
}

/// How a command line receives the files.
fn transport_for(argv: &Vec<String>) -> (r: Transport)
    ensures
        r == transport_of(views(argv@)),
{
    let mut i: usize = 0;
    while i < argv.len()
        invariant
            i <= argv@.len(),
            forall|k: int|
                0 <= k < i ==> !has_text(#[trigger] views(argv@)[k], "{files-csv}"@) && !has_text(
                    views(argv@)[k],
                    "{files}"@,
                ),
        decreases argv@.len() - i,
    {
        assert(views(argv@)[i as int] == argv@[i as int]@);
        if contains_text(argv[i].as_str(), "{files-csv}") || contains_text(
            argv[i].as_str(),
            "{files}",
        ) {
            return Transport::FileList;
        }
        i += 1;
    }
    Transport::Playlist
}

/// Whether a player is there, and the path to put for `{exe}`, if any.
pub open spec fn found(p: RealProbes, e: Entry) -> Option<Option<Seq<char>>> {
    match e.sign {
        Sign::Bin(bin) => if p.runs(bin) { Some(None) } else { None },
        Sign::App(app) => if p.installed(app) { Some(None) } else { None },
        Sign::ProgramFile(rel) => match p.located(rel) {
            Some(exe) => Some(Some(exe)),
            None => None,
        },
    }
}

/// A command line with its program put in.
pub open spec fn with_exe(argv: Seq<Seq<char>>, exe: Option<Seq<char>>) -> Seq<Seq<char>> {
    argv.map_values(
        |a: Seq<char>|
            match exe {
                Some(e) => replaced(a, "{exe}"@, e),
                None => a,
            },
    )
}

/// The first player of a table that is there.
pub open spec fn first_found(p: RealProbes, table: Seq<Entry>) -> Option<Chosen>
    decreases table.len(),
{
    if table.len() == 0 {
        None
    } else {
        match found(p, table[0]) {
            Some(exe) => {
                let argv = with_exe(table[0].argv, exe);
                Some(Chosen { label: table[0].label, argv, transport: transport_of(argv) })
            },
            None => first_found(p, table.skip(1)),
        }
    }
}

/// The platform's own way to open a file.
pub open spec fn default_handler(os: Os) -> Chosen {
    match os {
        Os::Linux => Chosen {
            label: "xdg-open (default handler)"@,
            argv: seq!["xdg-open"@, "{playlist}"@],
            transport: Transport::Playlist,
        },
        Os::MacOS => Chosen {
            label: "open (default handler)"@,
            argv: seq!["open"@, "{playlist}"@],
            transport: Transport::Playlist,
        },
        Os::Windows => Chosen {
            label: "explorer (default handler)"@,
            argv: seq!["explorer.exe"@, "{playlist}"@],
            transport: Transport::Playlist,
        },
    }
}

/// An application of macOS, by name.
pub open spec fn mac_app(app: Seq<char>) -> Chosen {
    Chosen {
        label: app,
        argv: seq!["open"@, "-a"@, app, "{playlist}"@],
        transport: Transport::Playlist,
    }
}

/// The player to use: the configured command, else the configured application
/// on macOS, else the first that is found, else the platform's own handler.
pub open spec fn resolved(settings: PlayerSettings, p: RealProbes) -> Chosen {
    if settings.command is Some && settings.command->0@.len() > 0 {
        let argv = views(settings.command->0@);
        Chosen { label: "custom ("@ + argv[0] + ")"@, argv, transport: transport_of(argv) }
    } else if p.os == Os::MacOS && settings.app is Some && trimmed(settings.app->0@).len()
        > 0 {
        mac_app(trimmed(settings.app->0@))
    } else {
        match first_found(p, players(p.os)) {
            Some(c) => c,
            None => default_handler(p.os),
        }
    }
}

fn fill_exe(argv: &Vec<&'static str>, exe: &Option<String>) -> (r: Vec<String>)
    ensures
        views(r@) == with_exe(str_views(argv@), opt_view(*exe)),
{
    let mut out: Vec<String> = Vec::new();
    let ghost all = with_exe(str_views(argv@), opt_view(*exe));
    let n: usize = argv.len();
    let mut i: usize = 0;
    while i < n
        invariant
            i <= n,
            n == argv@.len(),
            all == with_exe(str_views(argv@), opt_view(*exe)),
            views(out@) == all.take(i as int),
        decreases n - i,
    {
        let ghost before = out@;
        proof {
            reveal_strlit("{exe}");
        }
        let a = match exe {
            Some(e) => replace_text(argv[i], "{exe}", e.as_str()),
            None => argv[i].to_owned(),
        };
        out.push(a);
        i += 1;
        assert(views(out@) =~= views(before).push(a@));
        assert(all.take(i as int) =~= all.take(i - 1).push(all[i - 1]));
    }
    assert(all.take(n as int) =~= all);
    out
}

fn look_for(p: &RealProbes, e: &DetectEntry) -> (r: Option<Option<String>>)
    ensures
        match r {
            Some(exe) => found(*p, entry_view(*e)) == Some(opt_view(exe)),
            None => found(*p, entry_view(*e)) is None,
        },
{
    match &e.probe {
        Probe::Bin(bin) => if p.which(bin) {
            Some(None)
        } else {
            None
        },
        Probe::App(app) => if p.app_exists(app) {
            Some(None)
        } else {
            None
        },
        Probe::ProgramFile(rel) => match p.program_file(rel) {
            Some(exe) => Some(Some(exe)),
            None => None,
        },
    }
}

fn detect(p: &RealProbes, table: &Vec<DetectEntry>) -> (r: Option<ResolvedPlayer>)
    ensures
        match r {
            Some(c) => first_found(*p, entry_views(table@)) == Some(chosen_view(c)),
            None => first_found(*p, entry_views(table@)) is None,
        },
{
    let ghost es = entry_views(table@);
    let n: usize = table.len();
    let mut i: usize = 0;
    assert(es.skip(0) =~= es);
    while i < n
        invariant
            i <= n,
            n == table@.len(),
            es == entry_views(table@),
            first_found(*p, es) == first_found(*p, es.skip(i as int)),
        decreases n - i,
    {
        assert(es.skip(i as int)[0] == entry_view(table@[i as int]));
        assert(es.skip(i as int).skip(1) =~= es.skip(i + 1));
        if let Some(exe) = look_for(p, &table[i]) {
            let argv = fill_exe(&table[i].argv, &exe);
            let transport = transport_for(&argv);
            return Some(ResolvedPlayer { label: table[i].label.to_owned(), argv, transport });
        }
        i += 1;
    }
    None
}

fn handler(label: &str, program: &str) -> (r: ResolvedPlayer)
    ensures
        chosen_view(r) == (Chosen {
            label: label@,
            argv: seq![program@, "{playlist}"@],
            transport: Transport::Playlist,
        }),
{
    let argv = vec![program.to_owned(), "{playlist}".to_owned()];
    assert(views(argv@) =~= seq![program@, "{playlist}"@]);
    ResolvedPlayer { label: label.to_owned(), argv, transport: Transport::Playlist }
}

fn mac_app_entry(app: &str) -> (r: ResolvedPlayer)
    ensures
        chosen_view(r) == mac_app(app@),
{
    let argv = vec!["open".to_owned(), "-a".to_owned(), app.to_owned(), "{playlist}".to_owned()];
    assert(views(argv@) =~= seq!["open"@, "-a"@, app@, "{playlist}"@]);
    ResolvedPlayer { label: app.to_owned(), argv, transport: Transport::Playlist }
}

/// Decides which player to use on a machine. There is always one: at the
/// last, the platform's own handler.
pub fn resolve_on(settings: &Settings, machine: &RealProbes) -> (r: ResolvedPlayer)
    ensures
        chosen_view(r) == resolved(settings.player, *machine),
{
    if let Some(cmd) = &settings.player.command {
        if cmd.len() > 0 {
            let mut label = "custom (".to_owned();
            label.append(cmd[0].as_str());
            label.append(")");
            let argv = copy_all(cmd);
            let transport = transport_for(&argv);
            assert(views(argv@)[0] == argv@[0]@);
            return ResolvedPlayer { label, argv, transport };
        }
    }
    let os = machine.os;
    if os == Os::MacOS {
        if let Some(app) = &settings.player.app {
            let name = trim(app.as_str());
            let cs = chars_of(name.as_str());
            if cs.len() > 0 {
                return mac_app_entry(name.as_str());
            }
        }
    }
    let table = detection_table(os);
    if let Some(found) = detect(machine, &table) {
        return found;
    }
    match os {
        Os::Linux => handler("xdg-open (default handler)", "xdg-open"),
        Os::MacOS => handler("open (default handler)", "open"),
        Os::Windows => handler("explorer (default handler)", "explorer.exe"),
    }
}

/// Whether the probes gave this answer about a program on the search path.
pub open spec fn said_which<P: Probes>(probes: P, bin: Seq<char>, there: bool) -> bool {
    exists|s: &str| s@ == bin && #[trigger] call_ensures(P::which, (&probes, s), there)
}

/// Whether the probes gave this answer about an application.
pub open spec fn said_app<P: Probes>(probes: P, app: Seq<char>, there: bool) -> bool {
    exists|s: &str| s@ == app && #[trigger] call_ensures(P::app_exists, (&probes, s), there)
}

/// Whether the probes gave this answer about a program below the directories
/// for programs.
pub open spec fn said_file<P: Probes>(probes: P, rel: Seq<char>, exe: Option<Seq<char>>) -> bool {
    exists|s: &str, r: Option<String>|
        s@ == rel && opt_view(r) == exe && #[trigger] call_ensures(
            P::program_file,
            (&probes, s),
            r,
        )
}

/// Whether a machine has what the probes said of a player.
pub open spec fn agrees<P: Probes>(probes: P, m: RealProbes, e: Entry) -> bool {
    match e.sign {
        Sign::Bin(bin) => said_which(probes, bin, m.runs(bin)),
        Sign::App(app) => said_app(probes, app, m.installed(app)),
        Sign::ProgramFile(rel) => said_file(probes, rel, m.located(rel)),
    }
}

/// Whether a machine is the one that the probes described: it has their
/// platform, and of each of its players what they said.
pub open spec fn described<P: Probes>(probes: P, m: RealProbes) -> bool {
    &&& call_ensures(P::os, (&probes,), m.os)
    &&& forall|i: int| 0 <= i < players(m.os).len() ==> #[trigger] agrees(probes, m, players(m.os)[i])
}

fn ask<P: Probes, F: Fn(&P, &str) -> R, R>(probes: &P, f: F, about: &str) -> (r: R)
    requires
        call_requires(f, (probes, about)),
    ensures
        call_ensures(f, (probes, about), r),
{
    f(probes, about)
}

fn ask_os<P: Probes, F: Fn(&P) -> Os>(probes: &P, f: F) -> (r: Os)
    requires
        call_requires(f, (probes,)),
    ensures
        call_ensures(f, (probes,), r),
{
    f(probes)
}

proof fn lemma_listed_push(v: Seq<(String, String)>, x: (String, String), rel: Seq<char>)
    ensures
        path_listed(v.push(x), rel) == (match path_listed(v, rel) {
            Some(e) => Some(e),
            None => if x.0@ == rel { Some(x.1@) } else { None },
        }),
    decreases v.len(),
{
    if v.len() == 0 {
        assert(v.push(x).skip(1) =~= v);
    } else {
        assert(v.push(x).skip(1) =~= v.skip(1).push(x));
        lemma_listed_push(v.skip(1), x, rel);
    }
}

/// What the probes said of the players before `i`, in lists.
spec fn listed_so_far<P: Probes>(
    probes: P,
    table: Seq<DetectEntry>,
    i: int,
    bins: Seq<String>,
    apps: Seq<String>,
    files: Seq<(String, String)>,
) -> bool {
    &&& forall|b: Seq<char>| #[trigger]
        views(bins).contains(b) ==> said_which(probes, b, true)
    &&& forall|a: Seq<char>| #[trigger]
        views(apps).contains(a) ==> said_app(probes, a, true)
    &&& forall|f: Seq<char>|
        (#[trigger] path_listed(files, f)) is Some ==> said_file(probes, f, path_listed(files, f))
    &&& forall|k: int| 0 <= k < i ==> #[trigger] known(probes, table[k], bins, apps, files)
}

/// Whether a player is listed, or the probes said that it is not there.
spec fn known<P: Probes>(
    probes: P,
    e: DetectEntry,
    bins: Seq<String>,
    apps: Seq<String>,
    files: Seq<(String, String)>,
) -> bool {
    match e.probe {
        Probe::Bin(b) => views(bins).contains(b@) || said_which(probes, b@, false),
        Probe::App(a) => views(apps).contains(a@) || said_app(probes, a@, false),
        Probe::ProgramFile(f) => path_listed(files, f@) is Some || said_file(probes, f@, None),
    }
}

/// Asks a machine for all that its platform's table names.
fn probe_machine<P: Probes>(probes: &P) -> (r: RealProbes)
    ensures
        described(*probes, r),
{
    let os = ask_os(probes, P::os);
    let table = detection_table(os);
    let mut bins: Vec<String> = Vec::new();
    let mut apps: Vec<String> = Vec::new();
    let mut program_files: Vec<(String, String)> = Vec::new();
    let n: usize = table.len();
    let mut i: usize = 0;
    while i < n
        invariant
            i <= n,
            n == table@.len(),
            listed_so_far(*probes, table@, i as int, bins@, apps@, program_files@),
        decreases n - i,
    {
        let ghost before = (bins@, apps@, program_files@);
        match &table[i].probe {
            Probe::Bin(bin) => {
                if ask(probes, P::which, bin) {
                    bins.push((*bin).to_owned());
                    assert(views(bins@) =~= views(before.0).push(bin@));
                    assert(views(bins@)[before.0.len() as int] == bin@);
                    assert(said_which(*probes, bin@, true));
                    assert forall|b: Seq<char>| #[trigger] views(bins@).contains(b) implies said_which(
                        *probes,
                        b,
                        true,
                    ) by {
                        if b != bin@ {
                            let x = choose|x: int| 0 <= x < views(bins@).len() && views(bins@)[x] == b;
                            assert(views(before.0)[x] == b);
                            assert(views(before.0).contains(b));
                        }
                    }
                } else {
                    assert(said_which(*probes, bin@, false));
                }
            },
            Probe::App(app) => {
                if ask(probes, P::app_exists, app) {
                    apps.push((*app).to_owned());
                    assert(views(apps@) =~= views(before.1).push(app@));
                    assert(views(apps@)[before.1.len() as int] == app@);
                    assert(said_app(*probes, app@, true));
                    assert forall|b: Seq<char>| #[trigger] views(apps@).contains(b) implies said_app(
                        *probes,
                        b,
                        true,
                    ) by {
                        if b != app@ {
                            let x = choose|x: int| 0 <= x < views(apps@).len() && views(apps@)[x] == b;
                            assert(views(before.1)[x] == b);
                            assert(views(before.1).contains(b));
                        }
                    }
                } else {
                    assert(said_app(*probes, app@, false));
                }
            },
            Probe::ProgramFile(rel) => {
                let answer = ask(probes, P::program_file, rel);
                assert(said_file(*probes, rel@, opt_view(answer)));
                if let Some(exe) = answer {
                    program_files.push(((*rel).to_owned(), exe));
                    assert forall|f: Seq<char>|
                        (#[trigger] path_listed(program_files@, f)) is Some implies said_file(
                        *probes,
                        f,
                        path_listed(program_files@, f),
                    ) by {
                        lemma_listed_push(before.2, program_files@.last(), f);
                        assert(program_files@ =~= before.2.push(program_files@.last()));
                    }
                    proof {
                        lemma_listed_push(before.2, program_files@.last(), rel@);
                        assert(program_files@ =~= before.2.push(program_files@.last()));
                    }
                }
            },
        }
        assert forall|k: int| 0 <= k < i + 1 implies #[trigger] known(
            *probes,
            table@[k],
            bins@,
            apps@,
            program_files@,
        ) by {
            if k < i {
                assert(known(*probes, table@[k], before.0, before.1, before.2));
                match table@[k].probe {
                    Probe::Bin(b) => {
                        if views(before.0).contains(b@) {
                            let x = choose|x: int|
                                0 <= x < views(before.0).len() && views(before.0)[x] == b@;
                            assert(views(bins@)[x] == b@);
                        }
                    },
                    Probe::App(a) => {
                        if views(before.1).contains(a@) {
                            let x = choose|x: int|
                                0 <= x < views(before.1).len() && views(before.1)[x] == a@;
                            assert(views(apps@)[x] == a@);
                        }
                    },
                    Probe::ProgramFile(f) => {
                        if program_files@.len() > before.2.len() {
                            lemma_listed_push(before.2, program_files@.last(), f@);
                            assert(program_files@ =~= before.2.push(program_files@.last()));
                        }
                    },
                }
            }
        }
        i += 1;
    }
    let r = RealProbes { os, bins, apps, program_files };
    assert forall|k: int| 0 <= k < players(r.os).len() implies #[trigger] agrees(
        *probes,
        r,
        players(r.os)[k],
    ) by {
        assert(players(r.os)[k] == entry_view(table@[k]));
        assert(known(*probes, table@[k], bins@, apps@, program_files@));
    }
    r
}

/// Decides which player to use: the one for the machine that the probes
/// describe.
pub fn resolve_player<P: Probes>(settings: &Settings, probes: &P) -> (r: ResolvedPlayer)
    ensures
        exists|m: RealProbes| #[trigger]
            described(*probes, m) && chosen_view(r) == resolved(settings.player, m),
{
    let machine = probe_machine(probes);
    let r = resolve_on(settings, &machine);
    assert(described(*probes, machine) && chosen_view(r) == resolved(settings.player, machine));
    r
}

proof fn lemma_first_found_is_runnable(p: RealProbes, table: Seq<Entry>)
    requires
        forall|i: int| 0 <= i < table.len() ==> (#[trigger] table[i]).argv.len() > 0,
    ensures
        first_found(p, table) is Some ==> first_found(p, table)->0.argv.len() > 0,
    decreases table.len(),
{
    if table.len() > 0 && found(p, table[0]) is None {
        assert forall|i: int| 0 <= i < table.skip(1).len() implies (#[trigger] table.skip(
            1,
        )[i]).argv.len() > 0 by {
            assert(table.skip(1)[i] == table[i + 1]);
        }
        lemma_first_found_is_runnable(p, table.skip(1));
    }
}

/// Whatever is configured and installed, there is a program to run.
pub proof fn law_some_player_is_always_chosen(settings: PlayerSettings, p: RealProbes)
    ensures
        resolved(settings, p).argv.len() > 0,
{
    lemma_first_found_is_runnable(p, linux_players());
    lemma_first_found_is_runnable(p, mac_players());
    lemma_first_found_is_runnable(p, windows_players());
}

/// A configured command goes before everything that is installed.
pub proof fn law_configured_command_wins(settings: PlayerSettings, p: RealProbes)
    requires
        settings.command is Some,
        settings.command->0@.len() > 0,
    ensures
        resolved(settings, p).argv == views(settings.command->0@),
{
}

/// Whether a text holds a placeholder for files.
pub open spec fn holds_files(s: Seq<char>) -> bool {
    has_text(s, "{files-csv}"@) || has_text(s, "{files}"@)
}

proof fn lemma_holds_no_files(s: Seq<char>)
    requires
        forall|k: int| 0 <= k < s.len() - 1 && #[trigger] s[k] == '{' ==> s[k + 1] != 'f',
    ensures
        !holds_files(s),
{
    reveal_strlit("{files-csv}");
    reveal_strlit("{files}");
    assert forall|i: int| !crate::text::occurs_at(s, "{files-csv}"@, i) by {
        if crate::text::occurs_at(s, "{files-csv}"@, i) {
            let sub = s.subrange(i, i + "{files-csv}"@.len());
            assert(sub[0] == s[i] && sub[1] == s[i + 1]);
        }
    }
    assert forall|i: int| !crate::text::occurs_at(s, "{files}"@, i) by {
        if crate::text::occurs_at(s, "{files}"@, i) {
            let sub = s.subrange(i, i + "{files}"@.len());
            assert(sub[0] == s[i] && sub[1] == s[i + 1]);
        }
    }
}

proof fn lemma_opening_words()
    ensures
        !holds_files("{playlist}"@),
        !holds_files("open"@),
        !holds_files("-a"@),
        !holds_files("xdg-open"@),
        !holds_files("explorer.exe"@),
{
    reveal_strlit("{playlist}");
    reveal_strlit("open");
    reveal_strlit("-a");
    reveal_strlit("xdg-open");
    reveal_strlit("explorer.exe");
    lemma_holds_no_files("{playlist}"@);
    lemma_holds_no_files("open"@);
    lemma_holds_no_files("-a"@);
    lemma_holds_no_files("xdg-open"@);
    lemma_holds_no_files("explorer.exe"@);
}

proof fn lemma_first_found_transport(p: RealProbes, table: Seq<Entry>)
    ensures
        first_found(p, table) is Some ==> first_found(p, table)->0.transport == transport_of(
            first_found(p, table)->0.argv,
        ),
    decreases table.len(),
{
    if table.len() > 0 && found(p, table[0]) is None {
        lemma_first_found_transport(p, table.skip(1));
    }
}

/// How files are handed over follows from the command line: as a list just
/// where some argument holds a placeholder for files. An application of macOS
/// whose very name holds such a placeholder is the one exception.
pub proof fn law_transport_follows_from_placeholders(settings: PlayerSettings, p: RealProbes)
    requires
        p.os == Os::MacOS && settings.app is Some && !(settings.command is Some
            && settings.command->0@.len() > 0) ==> !holds_files(trimmed(settings.app->0@)),
    ensures
        resolved(settings, p).transport == transport_of(resolved(settings, p).argv),
        resolved(settings, p).transport == Transport::FileList <==> exists|i: int|
            0 <= i < resolved(settings, p).argv.len() && holds_files(
                #[trigger] resolved(settings, p).argv[i],
            ),
{
    lemma_opening_words();
    lemma_first_found_transport(p, players(p.os));
    let argv = resolved(settings, p).argv;
    assert(takes_files(argv) <==> exists|i: int| 0 <= i < argv.len() && holds_files(#[trigger] argv[i]));
}

/// A configured application counts on macOS alone: elsewhere the choice is
/// the same without it.
pub proof fn law_configured_app_counts_on_macos_alone(settings: PlayerSettings, p: RealProbes)
    requires
        p.os != Os::MacOS,
    ensures
        resolved(settings, p) == resolved((PlayerSettings { app: None, ..settings }), p),
{
}

// ---------------------------------------------------------------------------
// Search path names

/// Whether a list of extensions names none.
pub open spec fn names_none(pathext: Option<Seq<char>>) -> bool {
    pathext is None || trimmed(pathext->0).len() == 0
}

/// The extensions to try, in order.
pub open spec fn try_extensions(parts: Seq<Seq<char>>) -> Seq<Seq<char>>
    decreases parts.len(),
{
    if parts.len() == 0 {
        Seq::empty()
    } else {
        let ext = trimmed(parts.last());
        if ext.len() > 0 {
            try_extensions(parts.drop_last()).push(lowercased(ext))
        } else {
            try_extensions(parts.drop_last())
        }
    }
}

/// The names under which a program may stand on the search path.
pub open spec fn program_names(bin: Seq<char>, pathext: Option<Seq<char>>) -> Seq<Seq<char>> {
    if ext_of_path(bin) is Some {
        seq![bin]
    } else {
        let list = if names_none(pathext) { ".COM;.EXE;.BAT;.CMD"@ } else { pathext->0 };
        seq![bin] + try_extensions(pieces(list, ';')).map_values(|e: Seq<char>| bin + e)
    }
}

/// The names under which a program may stand on a search path where programs
/// have extensions. A name that has one is tried as it is. Where no extensions
/// are given, the usual ones are tried.
pub fn pathext_candidates(bin: &str, pathext: Option<&str>) -> (r: Vec<String>)
    ensures
        views(r@) == program_names(bin@, opt_chars(pathext)),
{
    let mut out: Vec<String> = Vec::new();
    out.push(bin.to_owned());
    assert(views(out@) =~= seq![bin@]);
    if extension(bin).is_some() {
        return out;
    }
    let mut list = ".COM;.EXE;.BAT;.CMD".to_owned();
    if let Some(given) = pathext {
        let t = trim(given);
        let cs = chars_of(t.as_str());
        if cs.len() > 0 {
            list = given.to_owned();
        }
    }
    let parts = split_on(list.as_str(), ';');
    let ghost ps = views(parts@);
    let ghost f = |e: Seq<char>| bin@ + e;
    let n: usize = parts.len();
    let mut i: usize = 0;
    assert(seq![bin@] + try_extensions(ps.take(0)).map_values(f) =~= seq![bin@]);
    while i < n
        invariant
            i <= n,
            n == parts@.len(),
            ps == views(parts@),
            f == (|e: Seq<char>| bin@ + e),
            views(out@) == seq![bin@] + try_extensions(ps.take(i as int)).map_values(f),
        decreases n - i,
    {
        let ghost before = out@;
        let ext = trim(parts[i].as_str());
        let cs = chars_of(ext.as_str());
        assert(ps.take(i + 1).drop_last() =~= ps.take(i as int));
        assert(ps.take(i + 1).last() == parts@[i as int]@);
        if cs.len() > 0 {
            let mut name = bin.to_owned();
            let low = to_lower(ext.as_str());
            name.append(low.as_str());
            out.push(name);
            proof {
                let exts = try_extensions(ps.take(i as int));
                assert(views(out@) =~= views(before).push(bin@ + lowercased(ext@)));
                assert(exts.push(lowercased(ext@)).map_values(f) =~= exts.map_values(f).push(
                    bin@ + lowercased(ext@),
                ));
                assert(views(out@) =~= seq![bin@] + exts.push(lowercased(ext@)).map_values(f));
            }
        }
        i += 1;
    }
    assert(ps.take(n as int) =~= ps);
    out
}

// ---------------------------------------------------------------------------
// The command line

/// A placeholder in an argument. The first of these that occurs counts.
pub enum Slot {
    FilesCsv,
    Files,
    Playlist,
    Plain,
}

/// The placeholder in an argument.
pub open spec fn slot(arg: Seq<char>) -> Slot {
    if has_text(arg, "{files-csv}"@) {
        Slot::FilesCsv
    } else if has_text(arg, "{files}"@) {
        Slot::Files
    } else if has_text(arg, "{playlist}"@) {
        Slot::Playlist
    } else {
        Slot::Plain
    }
}

/// The one path of a target, where it is one path.
pub open spec fn one_path(t: PlayTarget) -> Option<Seq<char>> {
    match t {
        PlayTarget::SingleFile(p) => Some(p@),
        PlayTarget::Playlist(p) => Some(p@),
        PlayTarget::FileList(_) => None,
    }
}

/// The files of a target, where it is a list of files.
pub open spec fn file_paths(t: PlayTarget) -> Option<Seq<Seq<char>>> {
    match t {
        PlayTarget::FileList(fs) => Some(views(fs@)),
        _ => None,
    }
}

/// One argument once for each file.
pub open spec fn for_each_file(arg: Seq<char>, files: Seq<Seq<char>>) -> Seq<Seq<char>> {
    files.map_values(|f: Seq<char>| replaced(arg, "{files}"@, f))
}

/// What an argument becomes. One whose placeholder does not suit the target
/// is left out.
pub open spec fn rendered_arg(arg: Seq<char>, t: PlayTarget) -> Seq<Seq<char>> {
    match slot(arg) {
        Slot::FilesCsv => match file_paths(t) {
            Some(fs) => seq![replaced(arg, "{files-csv}"@, joined_texts(fs, ","@))],
            None => Seq::empty(),
        },
        Slot::Files => match file_paths(t) {
            Some(fs) => for_each_file(arg, fs),
            None => Seq::empty(),
        },
        Slot::Playlist => match one_path(t) {
            Some(p) => seq![replaced(arg, "{playlist}"@, p)],
            None => Seq::empty(),
        },
        Slot::Plain => seq![arg],
    }
}

/// What arguments become, one after the other.
pub open spec fn rendered_args(args: Seq<Seq<char>>, t: PlayTarget) -> Seq<Seq<char>>
    decreases args.len(),
{
    if args.len() == 0 {
        Seq::empty()
    } else {
        rendered_args(args.drop_last(), t) + rendered_arg(args.last(), t)
    }
}

/// Whether some argument holds a placeholder.
pub open spec fn has_slot(args: Seq<Seq<char>>) -> bool
    decreases args.len(),
{
    args.len() > 0 && (has_slot(args.drop_last()) || !(slot(args.last()) is Plain))
}

/// All paths of a target.
pub open spec fn target_paths(t: PlayTarget) -> Seq<Seq<char>> {
    match one_path(t) {
        Some(p) => seq![p],
        None => file_paths(t)->0,
    }
}

/// The command line for a target. Without any placeholder the paths go at
/// the end.
pub open spec fn command_line(args: Seq<Seq<char>>, t: PlayTarget) -> Seq<Seq<char>> {
    if has_slot(args) { rendered_args(args, t) } else { rendered_args(args, t) + target_paths(t) }
}

fn push_each_file(out: &mut Vec<String>, arg: &str, files: &Vec<String>)
    ensures
        views(final(out)@) == views(old(out)@) + for_each_file(arg@, views(files@)),
{
    let ghost start = views(out@);
    let ghost all = for_each_file(arg@, views(files@));
    let n: usize = files.len();
    let mut i: usize = 0;
    assert(start + all.take(0) =~= start);
    proof {
        reveal_strlit("{files}");
    }
    while i < n
        invariant
            i <= n,
            n == files@.len(),
            "{files}"@.len() > 0,
            all == for_each_file(arg@, views(files@)),
            views(out@) == start + all.take(i as int),
        decreases n - i,
    {
        let ghost before = out@;
        let a = replace_text(arg, "{files}", files[i].as_str());
        out.push(a);
        i += 1;
        assert(views(out@) =~= views(before).push(a@));
        assert(all[i - 1] == a@);
        assert(start + all.take(i as int) =~= (start + all.take(i - 1)).push(all[i - 1]));
    }
    assert(all.take(n as int) =~= all);
}

fn push_one(out: &mut Vec<String>, a: String)
    ensures
        views(final(out)@) == views(old(out)@) + seq![a@],
{
    let ghost before = out@;
    out.push(a);
    assert(views(out@) =~= views(before) + seq![a@]);
}

fn push_arg(out: &mut Vec<String>, arg: &str, target: &PlayTarget) -> (plain: bool)
    ensures
        views(final(out)@) == views(old(out)@) + rendered_arg(arg@, *target),
        plain == (slot(arg@) is Plain),
{
    proof {
        reveal_strlit("{files-csv}");
        reveal_strlit("{playlist}");
        assert(views(out@) + Seq::<Seq<char>>::empty() =~= views(out@));
    }
    if contains_text(arg, "{files-csv}") {
        if let PlayTarget::FileList(files) = target {
            let csv = join_texts(files, ",");
            push_one(out, replace_text(arg, "{files-csv}", csv.as_str()));
        }
        false
    } else if contains_text(arg, "{files}") {
        if let PlayTarget::FileList(files) = target {
            push_each_file(out, arg, files);
        }
        false
    } else if contains_text(arg, "{playlist}") {
        match target {
            PlayTarget::SingleFile(p) => {
                push_one(out, replace_text(arg, "{playlist}", p.as_str()));
            },
            PlayTarget::Playlist(p) => {
                push_one(out, replace_text(arg, "{playlist}", p.as_str()));
            },
            PlayTarget::FileList(_) => {},
        }
        false
    } else {
        push_one(out, arg.to_owned());
        true
    }
}

/// Puts a target into a command line.
pub fn render_argv(template: &Vec<String>, target: &PlayTarget) -> (r: Vec<String>)
    ensures
        views(r@) == command_line(views(template@), *target),
{
    let mut out: Vec<String> = Vec::new();
    let mut used = false;
    let ghost args = views(template@);
    let n: usize = template.len();
    let mut i: usize = 0;
    assert(views(out@) =~= rendered_args(args.take(0), *target));
    while i < n
        invariant
            i <= n,
            n == template@.len(),
            args == views(template@),
            views(out@) == rendered_args(args.take(i as int), *target),
            used == has_slot(args.take(i as int)),
        decreases n - i,
    {
        assert(args.take(i + 1).drop_last() =~= args.take(i as int));
        assert(args.take(i + 1).last() == template@[i as int]@);
        let plain = push_arg(&mut out, template[i].as_str(), target);
        if !plain {
            used = true;
        }
        i += 1;
    }
    assert(args.take(n as int) =~= args);
    if !used {
        match target {
            PlayTarget::SingleFile(p) => {
                push_one(&mut out, p.clone());
            },
            PlayTarget::Playlist(p) => {
                push_one(&mut out, p.clone());
            },
            PlayTarget::FileList(files) => {
                let ghost before = out@;
                let mut rest = copy_all(files);
                out.append(&mut rest);
                assert(views(out@) =~= views(before) + views(files@));
            },
        }
    }
    out
}

// ---------------------------------------------------------------------------
// Putting it together

/// Whether an item can be handed over: its file is on disk, its path has no
/// line break, and no comma where commas separate paths.
pub open spec fn is_playable(item: PlayItem, on_disk: Seq<Seq<char>>, csv: bool) -> bool {
    &&& on_disk.contains(item.path@)
    &&& !has_text(item.path@, "\n"@)
    &&& csv ==> !has_text(item.path@, ","@)
}

/// The items that can be handed over, in order.
pub open spec fn playable(items: Seq<PlayItem>, on_disk: Seq<Seq<char>>, csv: bool) -> Seq<PlayItem>
    decreases items.len(),
{
    if items.len() == 0 {
        Seq::empty()
    } else if is_playable(items.last(), on_disk, csv) {
        playable(items.drop_last(), on_disk, csv).push(items.last())
    } else {
        playable(items.drop_last(), on_disk, csv)
    }
}

/// Splits items into those that can be handed over and the number of others.
/// `on_disk` lists the paths that are there.
pub fn filter_playable(items: Vec<PlayItem>, on_disk: &Vec<String>, csv: bool) -> (r: (
    Vec<PlayItem>,
    usize,
))
    ensures
        r.0@ == playable(items@, views(on_disk@), csv),
        r.0@.len() + r.1 == items@.len(),
{
    let ghost all = items@;
    let mut rest = items;
    let mut out: Vec<PlayItem> = Vec::new();
    let mut skipped: usize = 0;
    let total: usize = rest.len();
    let ghost mut n: int = 0;
    assert(all.skip(0) =~= all);
    assert(all.take(0) =~= Seq::<PlayItem>::empty());
    while rest.len() > 0
        invariant
            0 <= n <= all.len(),
            total == all.len(),
            rest@ == all.skip(n),
            out@ == playable(all.take(n), views(on_disk@), csv),
            out@.len() + skipped == n,
        decreases rest@.len(),
    {
        let item = rest.remove(0);
        proof {
            assert(all.take(n + 1).drop_last() =~= all.take(n));
            assert(all.take(n + 1).last() == item);
            assert(rest@ =~= all.skip(n + 1));
            n = n + 1;
        }
        let p = item.path.as_str();
        if !holds(on_disk, p) || contains_text(p, "\n") || (csv && contains_text(p, ",")) {
            skipped = skipped + 1;
        } else {
            out.push(item);
        }
    }
    assert(all.take(n) =~= all);
    (out, skipped)
}

/// What is handed to a player can be handed over.
pub proof fn law_only_playable_files_are_played(
    items: Seq<PlayItem>,
    on_disk: Seq<Seq<char>>,
    csv: bool,
    k: int,
)
    requires
        0 <= k < playable(items, on_disk, csv).len(),
    ensures
        is_playable(playable(items, on_disk, csv)[k], on_disk, csv),
        items.contains(playable(items, on_disk, csv)[k]),
    decreases items.len(),
{
    let prev = playable(items.drop_last(), on_disk, csv);
    if k < prev.len() {
        law_only_playable_files_are_played(items.drop_last(), on_disk, csv, k);
        let i = choose|i: int| 0 <= i < items.drop_last().len() && items.drop_last()[i] == prev[k];
        assert(items[i] == prev[k]);
    } else {
        assert(items[items.len() - 1] == items.last());
    }
}

/// The paths of items.
pub open spec fn item_paths(items: Seq<PlayItem>) -> Seq<Seq<char>> {
    items.map_values(|i: PlayItem| i.path@)
}

/// Whether some argument takes paths separated by commas.
pub open spec fn takes_csv(argv: Seq<Seq<char>>) -> bool {
    exists|i: int| 0 <= i < argv.len() && has_text(#[trigger] argv[i], "{files-csv}"@)
}

/// The playlist's place in the cache.
pub open spec fn playlist_place(cache_dir: Seq<char>) -> Seq<char> {
    joined(joined(cache_dir, "play"@), playlist_name())
}

/// Whether `t` is how items are handed over.
pub open spec fn is_target(t: PlayTarget, items: Seq<PlayItem>, by: Transport, cache: Seq<char>) -> bool {
    match by {
        Transport::FileList => file_paths(t) == Some(item_paths(items)),
        Transport::Playlist => if items.len() == 1 {
            t is SingleFile && t->SingleFile_0@ == items[0].path@
        } else {
            t is Playlist && t->Playlist_0@ == playlist_place(cache)
        },
    }
}

/// All that a play action takes: the outcome to report, and the contents of
/// the playlist to write first, where there is one.
#[derive(Debug)]
pub struct Prepared {
    pub outcome: PlayOutcome,
    pub playlist: Option<String>,
}

/// Whether a play action was prepared for a player.
pub open spec fn is_prepared(
    r: Prepared,
    player: Chosen,
    items: Seq<PlayItem>,
    on_disk: Seq<Seq<char>>,
    cache: Seq<char>,
) -> bool {
    let play = playable(items, on_disk, takes_csv(player.argv));
    let listed = player.transport == Transport::Playlist && play.len() != 1;
    &&& r.outcome.player_label@ == player.label
    &&& r.outcome.played == play.len()
    &&& r.outcome.played + r.outcome.skipped_missing == items.len()
    &&& exists|t: PlayTarget| #[trigger]
        is_target(t, play, player.transport, cache) && views(r.outcome.argv@) == command_line(
            player.argv,
            t,
        )
    &&& opt_view(r.outcome.playlist_path) == (if listed { Some(playlist_place(cache)) } else { None })
    &&& opt_view(r.playlist) == (if listed { Some(playlist_text(play)) } else { None })
}

/// A single playable item is opened as the file that it is: no playlist is
/// written for it.
pub proof fn law_one_item_needs_no_playlist(
    r: Prepared,
    player: Chosen,
    items: Seq<PlayItem>,
    on_disk: Seq<Seq<char>>,
    cache: Seq<char>,
    t: PlayTarget,
)
    requires
        is_prepared(r, player, items, on_disk, cache),
        playable(items, on_disk, takes_csv(player.argv)).len() == 1,
        is_target(t, playable(items, on_disk, takes_csv(player.argv)), player.transport, cache),
    ensures
        r.playlist is None,
        r.outcome.playlist_path is None,
        t !is Playlist,
{
}

fn is_csv(argv: &Vec<String>) -> (r: bool)
    ensures
        r == takes_csv(views(argv@)),
{
    let mut i: usize = 0;
    while i < argv.len()
        invariant
            i <= argv@.len(),
            forall|k: int| 0 <= k < i ==> !has_text(#[trigger] views(argv@)[k], "{files-csv}"@),
        decreases argv@.len() - i,
    {
        assert(views(argv@)[i as int] == argv@[i as int]@);
        if contains_text(argv[i].as_str(), "{files-csv}") {
            return true;
        }
        i += 1;
    }
    false
}

fn paths_of(items: &Vec<PlayItem>) -> (r: Vec<String>)
    ensures
        views(r@) == item_paths(items@),
{
    let mut out: Vec<String> = Vec::new();
    let n: usize = items.len();
    let mut i: usize = 0;
    while i < n
        invariant
            i <= n,
            n == items@.len(),
            views(out@) == item_paths(items@).take(i as int),
        decreases n - i,
    {
        let ghost before = out@;
        out.push(items[i].path.clone());
        i += 1;
        assert(views(out@) =~= views(before).push(items@[i - 1].path@));
        assert(item_paths(items@).take(i as int) =~= item_paths(items@).take(i - 1).push(
            item_paths(items@)[i - 1],
        ));
    }
    assert(item_paths(items@).take(n as int) =~= item_paths(items@));
    out
}

/// What preparing a play action comes to. It fails only where nothing can be
/// played.
pub open spec fn is_preparation(
    r: Result<Prepared, KyokuError>,
    player: Chosen,
    items: Seq<PlayItem>,
    on_disk: Seq<Seq<char>>,
    cache: Seq<char>,
) -> bool {
    let play = playable(items, on_disk, takes_csv(player.argv));
    match r {
        Ok(p) => play.len() > 0 && is_prepared(p, player, items, on_disk, cache),
        Err(e) => play.len() == 0 && e is External && e->External_0@ == "nothing playable — "@
            + decimal(items.len()) + " file(s) missing on disk"@,
    }
}

/// Prepares a play action for a player, short of writing the playlist and
/// starting the player. `on_disk` lists the paths that are there.
pub fn prepare_for(
    player: ResolvedPlayer,
    items: Vec<PlayItem>,
    on_disk: &Vec<String>,
    cache_dir: &str,
) -> (r: Result<Prepared, KyokuError>)
    ensures
        is_preparation(r, chosen_view(player), items@, views(on_disk@), cache_dir@),
{
    let csv = is_csv(&player.argv);
    let (play, skipped) = filter_playable(items, on_disk, csv);
    if play.len() == 0 {
        let mut msg = "nothing playable — ".to_owned();
        msg.append(number_text(skipped as u64).as_str());
        msg.append(" file(s) missing on disk");
        return Err(KyokuError::External(msg));
    }
    let mut playlist_path: Option<String> = None;
    let mut playlist: Option<String> = None;
    let target = match player.transport {
        Transport::FileList => PlayTarget::FileList(paths_of(&play)),
        Transport::Playlist => if play.len() == 1 {
            PlayTarget::SingleFile(play[0].path.clone())
        } else {
            let p = join(join(cache_dir, "play").as_str(), "kyoku-play.m3u8");
            playlist_path = Some(p.clone());
            playlist = Some(render_playlist(&play));
            PlayTarget::Playlist(p)
        },
    };
    assert(is_target(target, play@, player.transport, cache_dir@));
    let argv = render_argv(&player.argv, &target);
    let ghost chosen = chosen_view(player);
    let r = Prepared {
        outcome: PlayOutcome {
            player_label: player.label,
            argv,
            playlist_path,
            played: play.len(),
            skipped_missing: skipped,
        },
        playlist,
    };
    assert(is_target(target, play@, chosen.transport, cache_dir@) && views(r.outcome.argv@)
        == command_line(chosen.argv, target));
    assert(is_prepared(r, chosen, items@, views(on_disk@), cache_dir@));
    Ok(r)
}

/// Prepares a play action with the player that is resolved.
pub fn prepare_with_probes<P: Probes>(
    settings: &Settings,
    items: Vec<PlayItem>,
    probes: &P,
    on_disk: &Vec<String>,
    cache_dir: &str,
) -> (r: Result<Prepared, KyokuError>)
    ensures
        exists|m: RealProbes|
            #[trigger] described(*probes, m) && is_preparation(
                r,
                resolved(settings.player, m),
                items@,
                views(on_disk@),
                cache_dir@,
            ),
{
    let player = resolve_player(settings, probes);
    prepare_for(player, items, on_disk, cache_dir)
}

/// The program to start and its arguments.
pub fn split_command(argv: &Vec<String>) -> (r: Result<(String, Vec<String>), KyokuError>)
    ensures
        match r {
            Ok(c) => argv@.len() > 0 && c.0@ == argv@[0]@ && views(c.1@) == views(argv@).skip(1),
            Err(e) => argv@.len() == 0 && e is External && e->External_0@
                == "no player resolved — set [player] command in config"@,
        },
{
    if argv.len() == 0 {
        return Err(
            KyokuError::External("no player resolved — set [player] command in config".to_owned()),
        );
    }
    let program = argv[0].clone();
    let mut args = copy_all(argv);
    let first = args.remove(0);
    assert(views(args@) =~= views(argv@).skip(1));
    Ok((program, args))
}

/// The error for a player that does not start.
pub fn launch_failure(program: &str, reason: &str) -> (r: KyokuError)
    ensures
        r is External,
        r->External_0@ == "failed to launch `"@ + program@ + "`: "@ + reason@
            + " — install it or set [player] command in config"@,
{
    let mut s = "failed to launch `".to_owned();
    s.append(program);
    s.append("`: ");
    s.append(reason);
    s.append(" — install it or set [player] command in config");
    KyokuError::External(s)
}

/// What is said of a play action. `context` names what was played.
pub open spec fn notice_text(o: PlayOutcome, context: Seq<char>) -> Seq<char> {
    let head = "Playing: "@ + context + " ("@ + decimal(o.played as nat) + " track"@ + (
    if o.played == 1 { ""@ } else { "s"@ }) + ") via "@ + o.player_label@;
    if o.skipped_missing > 0 {
        head + " — "@ + decimal(o.skipped_missing as nat) + " skipped (files missing)"@
    } else {
        head
    }
}

/// What is said of a play action.
pub fn outcome_notice(outcome: &PlayOutcome, context: &str) -> (r: String)
    ensures
        r@ == notice_text(*outcome, context@),
{
    let mut s = "Playing: ".to_owned();
    s.append(context);
    s.append(" (");
    s.append(number_text(outcome.played as u64).as_str());
    s.append(" track");
    s.append(
        if outcome.played == 1 {
            ""
        } else {
            "s"
        },
    );
    s.append(") via ");
    s.append(outcome.player_label.as_str());
    if outcome.skipped_missing > 0 {
        s.append(" — ");
        s.append(number_text(outcome.skipped_missing as u64).as_str());
        s.append(" skipped (files missing)");
    }
    s
}

// ---------------------------------------------------------------------------
// Laws of playlists and command lines

proof fn lemma_entry_is_two_lines(item: PlayItem)
    requires
        !item.path@.contains('\n'),
    ensures
        entry_text(item).len() > 0,
        entry_text(item).last() == '\n',
        lines_of(entry_text(item)) == seq![
            "#EXTINF:"@ + seconds_text(item.duration_ms) + ","@ + one_line(display_name(item)),
            item.path@,
        ],
{
    reveal_strlit("#EXTINF:");
    reveal_strlit(",");
    reveal_strlit("-1");
    reveal_strlit("\n");
    let a = "#EXTINF:"@;
    let b = seconds_text(item.duration_ms);
    let d = one_line(display_name(item));
    let first = a + b + ","@ + d;
    if let Some(ms) = item.duration_ms {
        lemma_digits_hold_no_break(((ms + 500) / 1000) as nat);
    }
    assert forall|i: int| 0 <= i < first.len() implies first[i] != '\n' by {
        if i < a.len() {
            assert(first[i] == a[i]);
        } else if i < a.len() + b.len() {
            assert(first[i] == b[i - a.len()]);
            assert(b.contains(b[i - a.len()]));
        } else if i > a.len() + b.len() {
            let k = i - a.len() - b.len() - 1;
            assert(first[i] == d[k]);
        }
    }
    assert(!first.contains('\n'));
    let nl = seq!['\n'];
    assert("\n"@ =~= nl);
    let rest = item.path@ + nl + Seq::<char>::empty();
    assert(entry_text(item) =~= first + nl + rest);
    lemma_first_line(first, rest);
    lemma_first_line(item.path@, Seq::empty());
    assert(seq![first] + (seq![item.path@] + Seq::<Seq<char>>::empty()) =~= seq![first, item.path@]);
}

/// A playlist has a heading and then, for each item in the order given, a line
/// that describes it and the line of its path. So the lines that are no
/// comments are the paths of the items, in their order.
pub proof fn law_playlists_list_the_items_in_order(items: Seq<PlayItem>)
    requires
        forall|k: int| 0 <= k < items.len() ==> !(#[trigger] items[k]).path@.contains('\n'),
    ensures
        ({
            let l = lines_of(playlist_text(items));
            &&& l.len() == 1 + 2 * items.len()
            &&& l[0] == "#EXTM3U"@
            &&& forall|k: int|
                0 <= k < items.len() ==> l[2 * k + 2] == (#[trigger] items[k]).path@
            &&& forall|k: int|
                0 <= k < items.len() ==> begins(l[2 * k + 1], "#EXTINF:"@) && ends_in(
                    l[2 * k + 1],
                    one_line((#[trigger] items[k]).title@),
                )
        }),
    decreases items.len(),
{
    lemma_playlist_lines(items);
    let l = lines_of(playlist_text(items));
    assert forall|k: int| 0 <= k < items.len() implies begins(l[2 * k + 1], "#EXTINF:"@) && ends_in(
        l[2 * k + 1],
        one_line((#[trigger] items[k]).title@),
    ) by {
        let it = items[k];
        let a = "#EXTINF:"@;
        let b = seconds_text(it.duration_ms);
        let d = one_line(display_name(it));
        let t = one_line(it.title@);
        let line = a + b + ","@ + d;
        assert(l[2 * k + 1] == line);
        assert(line.take(a.len() as int) =~= a);
        assert(d.skip(d.len() - t.len()) =~= t);
        assert(line.skip(line.len() - t.len()) =~= t);
    }
}

/// Whether `s` ends in `t`.
pub open spec fn ends_in(s: Seq<char>, t: Seq<char>) -> bool {
    t.len() <= s.len() && s.skip(s.len() - t.len()) == t
}

proof fn lemma_playlist_lines(items: Seq<PlayItem>)
    requires
        forall|k: int| 0 <= k < items.len() ==> !(#[trigger] items[k]).path@.contains('\n'),
    ensures
        ({
            let l = lines_of(playlist_text(items));
            &&& playlist_text(items).len() > 0
            &&& playlist_text(items).last() == '\n'
            &&& l.len() == 1 + 2 * items.len()
            &&& l[0] == "#EXTM3U"@
            &&& forall|k: int|
                0 <= k < items.len() ==> l[2 * k + 2] == (#[trigger] items[k]).path@ && l[2 * k + 1]
                    == "#EXTINF:"@ + seconds_text(items[k].duration_ms) + ","@ + one_line(
                    display_name(items[k]),
                )
        }),
    decreases items.len(),
{
    if items.len() == 0 {
        reveal_strlit("#EXTM3U\n");
        reveal_strlit("#EXTM3U");
        let h = "#EXTM3U"@;
        assert(!h.contains('\n'));
        assert("#EXTM3U\n"@ =~= h + seq!['\n'] + Seq::<char>::empty());
        lemma_first_line(h, Seq::empty());
    } else {
        let rest = items.drop_last();
        assert forall|k: int| 0 <= k < rest.len() implies !(#[trigger] rest[k]).path@.contains('\n') by {
            assert(rest[k] == items[k]);
        }
        lemma_playlist_lines(rest);
        assert(items[items.len() - 1] == items.last());
        lemma_entry_is_two_lines(items.last());
        lemma_lines_add(playlist_text(rest), entry_text(items.last()));
        let l = lines_of(playlist_text(items));
        let m = lines_of(playlist_text(rest));
        assert(l.len() == m.len() + 2);
        assert forall|k: int| 0 <= k < items.len() implies l[2 * k + 2] == (#[trigger] items[k]).path@
            && l[2 * k + 1] == "#EXTINF:"@ + seconds_text(items[k].duration_ms) + ","@ + one_line(
            display_name(items[k]),
        ) by {
            if k < rest.len() {
                assert(rest[k] == items[k]);
                assert(l[2 * k + 2] == m[2 * k + 2]);
                assert(l[2 * k + 1] == m[2 * k + 1]);
            }
        }
    }
}

/// A playlist calls an item by its artist and title, and tells how long it
/// lasts in whole seconds, to the nearest.
pub proof fn law_playlists_describe_the_items(items: Seq<PlayItem>, k: int, secs: nat)
    requires
        forall|i: int| 0 <= i < items.len() ==> !(#[trigger] items[i]).path@.contains('\n'),
        0 <= k < items.len(),
        items[k].duration_ms is Some,
        1000 * secs <= items[k].duration_ms->0 + 500 < 1000 * (secs + 1),
        items[k].artist is Some,
        items[k].artist->0@.len() > 0,
        forall|i: int|
            0 <= i < items[k].artist->0@.len() ==> (#[trigger] items[k].artist->0@[i]) != '\n'
                && items[k].artist->0@[i] != '\r',
        forall|i: int|
            0 <= i < items[k].title@.len() ==> (#[trigger] items[k].title@[i]) != '\n'
                && items[k].title@[i] != '\r',
    ensures
        lines_of(playlist_text(items))[2 * k + 1] == "#EXTINF:"@ + decimal(secs) + ","@
            + items[k].artist->0@ + " - "@ + items[k].title@,
{
    lemma_playlist_lines(items);
    reveal_strlit(" - ");
    let it = items[k];
    let a = it.artist->0@;
    let d = display_name(it);
    assert(d == a + " - "@ + it.title@);
    assert(one_line(d) =~= d) by {
        assert forall|i: int| 0 <= i < d.len() implies d[i] != '\n' && d[i] != '\r' by {
            if i < a.len() {
                assert(d[i] == a[i]);
            } else if i < a.len() + 3 {
                assert(d[i] == " - "@[i - a.len()]);
            } else {
                assert(d[i] == it.title@[i - a.len() - 3]);
            }
        }
    }
    assert((it.duration_ms->0 + 500) / 1000 == secs);
    let l = lines_of(playlist_text(items))[2 * k + 1];
    assert(l =~= "#EXTINF:"@ + decimal(secs) + ","@ + a + " - "@ + it.title@);
}

/// What is played are the items that can be, all of them and in the order
/// given: `at` tells which item each of them is.
pub proof fn law_playable_items_keep_their_order(
    items: Seq<PlayItem>,
    on_disk: Seq<Seq<char>>,
    csv: bool,
) -> (at: Seq<int>)
    ensures
        at.len() == playable(items, on_disk, csv).len(),
        forall|k: int|
            0 <= k < at.len() ==> 0 <= #[trigger] at[k] < items.len() && playable(
                items,
                on_disk,
                csv,
            )[k] == items[at[k]],
        forall|j: int, k: int| 0 <= j < k < at.len() ==> #[trigger] at[j] < #[trigger] at[k],
        forall|i: int|
            0 <= i < items.len() ==> (at.contains(i) <==> on_disk.contains(
                (#[trigger] items[i]).path@,
            ) && !items[i].path@.contains('\n') && (csv ==> !items[i].path@.contains(','))),
    decreases items.len(),
{
    if items.len() == 0 {
        Seq::empty()
    } else {
        let rest = items.drop_last();
        let before = law_playable_items_keep_their_order(rest, on_disk, csv);
        let n = items.len() - 1;
        let it = items.last();
        reveal_strlit("\n");
        reveal_strlit(",");
        lemma_holds_char(it.path@, "\n"@);
        lemma_holds_char(it.path@, ","@);
        let at = if is_playable(it, on_disk, csv) { before.push(n) } else { before };
        assert forall|i: int| 0 <= i < items.len() implies (at.contains(i) <==> on_disk.contains(
            (#[trigger] items[i]).path@,
        ) && !items[i].path@.contains('\n') && (csv ==> !items[i].path@.contains(','))) by {
            if i < n {
                assert(rest[i] == items[i]);
                if before.contains(i) {
                    assert(at[before.index_of(i)] == i);
                }
                if at.contains(i) {
                    assert(before[at.index_of(i)] == i);
                }
            } else {
                assert(items[i] == it);
                assert(!before.contains(n)) by {
                    if before.contains(n) {
                        let x = before.index_of(n);
                        assert(before[x] < rest.len());
                    }
                }
                if is_playable(it, on_disk, csv) {
                    assert(at[before.len() as int] == n);
                }
            }
        }
        assert forall|k: int| 0 <= k < at.len() implies 0 <= #[trigger] at[k] < items.len() && playable(
            items,
            on_disk,
            csv,
        )[k] == items[at[k]] by {
            if k < before.len() {
                assert(at[k] == before[k]);
                assert(rest[before[k]] == items[before[k]]);
            }
        }
        assert forall|j: int, k: int| 0 <= j < k < at.len() implies #[trigger] at[j] < #[trigger] at[k] by {
            assert(at[j] == before[j]);
            if k < before.len() {
                assert(at[k] == before[k]);
            } else {
                assert(before[j] < rest.len());
            }
        }
        at
    }
}

proof fn lemma_holds_char(s: Seq<char>, pat: Seq<char>)
    requires
        pat.len() == 1,
    ensures
        has_text(s, pat) <==> s.contains(pat[0]),
{
    if has_text(s, pat) {
        let i = choose|i: int| crate::text::occurs_at(s, pat, i);
        assert(s.subrange(i, i + pat.len())[0] == pat[0]);
        assert(s[i] == pat[0]);
    }
    if s.contains(pat[0]) {
        let i = s.index_of(pat[0]);
        assert(s.subrange(i, i + 1) =~= pat);
        assert(crate::text::occurs_at(s, pat, i));
    }
}

proof fn lemma_no_brace_no_slot(s: Seq<char>)
    requires
        !s.contains('{'),
    ensures
        slot(s) is Plain,
{
    reveal_strlit("{files-csv}");
    reveal_strlit("{files}");
    reveal_strlit("{playlist}");
    assert forall|pat: Seq<char>, i: int|
        pat.len() > 0 && pat[0] == '{' implies !#[trigger] crate::text::occurs_at(s, pat, i) by {
        if crate::text::occurs_at(s, pat, i) {
            assert(s.subrange(i, i + pat.len())[0] == '{');
            assert(s[i] == '{');
        }
    }
}

proof fn lemma_slot_at(pre: Seq<char>, post: Seq<char>, pat: Seq<char>, other: Seq<char>, d: int)
    requires
        !pre.contains('{'),
        !post.contains('{'),
        pat.len() > 0,
        other.len() > 0,
        other[0] == '{',
        forall|k: int| 0 < k < pat.len() ==> #[trigger] pat[k] != '{',
        0 <= d < pat.len(),
        d < other.len(),
        pat[d] != other[d],
    ensures
        !has_text(pre + pat + post, other),
        has_text(pre + pat + post, pat),
{
    let s = pre + pat + post;
    assert(s.subrange(pre.len() as int, (pre.len() + pat.len()) as int) =~= pat);
    assert(crate::text::occurs_at(s, pat, pre.len() as int));
    assert forall|i: int| !#[trigger] crate::text::occurs_at(s, other, i) by {
        if crate::text::occurs_at(s, other, i) {
            let sub = s.subrange(i, i + other.len());
            assert(sub[0] == s[i]);
            assert(s[i] == '{');
            if i < pre.len() {
                assert(pre[i] == '{');
            } else if i >= pre.len() + pat.len() {
                assert(post[i - pre.len() - pat.len()] == '{');
            } else if i > pre.len() {
                assert(pat[i - pre.len()] == '{');
            } else {
                assert(sub[d] == s[i + d]);
                assert(s[i + d] == pat[d]);
            }
        }
    }
}

proof fn lemma_plain_args(args: Seq<Seq<char>>, t: PlayTarget)
    requires
        forall|k: int| 0 <= k < args.len() ==> !(#[trigger] args[k]).contains('{'),
    ensures
        rendered_args(args, t) == args,
        !has_slot(args),
    decreases args.len(),
{
    if args.len() > 0 {
        let rest = args.drop_last();
        assert forall|k: int| 0 <= k < rest.len() implies !(#[trigger] rest[k]).contains('{') by {
            assert(rest[k] == args[k]);
        }
        lemma_plain_args(rest, t);
        assert(args[args.len() - 1] == args.last());
        lemma_no_brace_no_slot(args.last());
        assert(rest + seq![args.last()] =~= args);
    }
}

proof fn lemma_args_add(a: Seq<Seq<char>>, b: Seq<Seq<char>>, t: PlayTarget)
    ensures
        rendered_args(a + b, t) == rendered_args(a, t) + rendered_args(b, t),
        has_slot(a + b) <==> has_slot(a) || has_slot(b),
    decreases b.len(),
{
    if b.len() == 0 {
        assert(a + b =~= a);
        assert(rendered_args(a, t) + Seq::<Seq<char>>::empty() =~= rendered_args(a, t));
    } else {
        lemma_args_add(a, b.drop_last(), t);
        assert((a + b).drop_last() =~= a + b.drop_last());
        assert((a + b).last() == b.last());
        assert(rendered_args(a, t) + rendered_args(b.drop_last(), t) + rendered_arg(b.last(), t)
            =~= rendered_args(a, t) + (rendered_args(b.drop_last(), t) + rendered_arg(b.last(), t)));
    }
}

proof fn lemma_one_slot(
    a: Seq<Seq<char>>,
    arg: Seq<char>,
    b: Seq<Seq<char>>,
    t: PlayTarget,
)
    requires
        forall|k: int| 0 <= k < a.len() ==> !(#[trigger] a[k]).contains('{'),
        forall|k: int| 0 <= k < b.len() ==> !(#[trigger] b[k]).contains('{'),
        !(slot(arg) is Plain),
    ensures
        command_line(a + seq![arg] + b, t) == a + rendered_arg(arg, t) + b,
{
    lemma_plain_args(a, t);
    lemma_plain_args(b, t);
    lemma_args_add(a, seq![arg], t);
    lemma_args_add(a + seq![arg], b, t);
    let one = seq![arg];
    assert(one.drop_last() =~= Seq::<Seq<char>>::empty());
    assert(one.last() == arg);
    assert(has_slot(one));
    assert(rendered_args(one.drop_last(), t) =~= Seq::<Seq<char>>::empty());
    assert(rendered_args(one, t) =~= rendered_arg(arg, t));
}

#[verifier::rlimit(60)]
proof fn lemma_playlist_slot(pre: Seq<char>, post: Seq<char>, p: Seq<char>)
    requires
        !pre.contains('{'),
        !post.contains('{'),
    ensures
        slot(pre + "{playlist}"@ + post) is Playlist,
        replaced(pre + "{playlist}"@ + post, "{playlist}"@, p) == pre + p + post,
{
    let pat = "{playlist}"@;
    let listed = "{files-csv}"@;
    let each = "{files}"@;
    assert(pat.len() == 10 && pat[0] == '{' && pat[1] == 'p' && pat[2] != '{' && pat[3] != '{'
        && pat[4] != '{' && pat[5] != '{' && pat[6] != '{' && pat[7] != '{' && pat[8] != '{'
        && pat[9] != '{') by {
        reveal_strlit("{playlist}");
    }
    assert(listed.len() == 11 && listed[0] == '{' && listed[1] == 'f') by {
        reveal_strlit("{files-csv}");
    }
    assert(each.len() == 7 && each[0] == '{' && each[1] == 'f') by {
        reveal_strlit("{files}");
    }
    lemma_slot_at(pre, post, pat, listed, 1);
    lemma_slot_at(pre, post, pat, each, 1);
    crate::text::law_an_occurrence_is_replaced(pre, pat, post, p);
}

#[verifier::rlimit(60)]
proof fn lemma_files_slot(pre: Seq<char>, post: Seq<char>, f: Seq<char>)
    requires
        !pre.contains('{'),
        !post.contains('{'),
    ensures
        slot(pre + "{files}"@ + post) is Files,
        replaced(pre + "{files}"@ + post, "{files}"@, f) == pre + f + post,
{
    let pat = "{files}"@;
    let other = "{files-csv}"@;
    assert(pat.len() == 7 && pat[0] == '{' && pat[6] == '}' && pat[1] != '{' && pat[2] != '{'
        && pat[3] != '{' && pat[4] != '{' && pat[5] != '{') by {
        reveal_strlit("{files}");
    }
    assert(other.len() == 11 && other[0] == '{' && other[6] == '-') by {
        reveal_strlit("{files-csv}");
    }
    lemma_slot_at(pre, post, pat, other, 6);
    crate::text::law_an_occurrence_is_replaced(pre, pat, post, f);
}

/// A command line with `{playlist}` in it gets the playlist, or the one file
/// that is played, in its place; the rest of it stays.
pub proof fn law_the_playlist_goes_in_its_place(
    a: Seq<Seq<char>>,
    pre: Seq<char>,
    post: Seq<char>,
    b: Seq<Seq<char>>,
    t: PlayTarget,
)
    requires
        forall|k: int| 0 <= k < a.len() ==> !(#[trigger] a[k]).contains('{'),
        forall|k: int| 0 <= k < b.len() ==> !(#[trigger] b[k]).contains('{'),
        !pre.contains('{'),
        !post.contains('{'),
        t !is FileList,
    ensures
        command_line(a + seq![pre + "{playlist}"@ + post] + b, t) == a + seq![
            pre + (match t {
                PlayTarget::SingleFile(p) => p@,
                PlayTarget::Playlist(p) => p@,
                PlayTarget::FileList(_) => Seq::empty(),
            }) + post,
        ] + b,
{
    let p = one_path(t)->0;
    lemma_playlist_slot(pre, post, p);
    lemma_one_slot(a, pre + "{playlist}"@ + post, b, t);
}

/// A command line with `{files}` in it gets that argument once for each file,
/// in the order of the files; the rest of it stays.
pub proof fn law_files_go_in_their_place(
    a: Seq<Seq<char>>,
    pre: Seq<char>,
    post: Seq<char>,
    b: Seq<Seq<char>>,
    t: PlayTarget,
)
    requires
        forall|k: int| 0 <= k < a.len() ==> !(#[trigger] a[k]).contains('{'),
        forall|k: int| 0 <= k < b.len() ==> !(#[trigger] b[k]).contains('{'),
        !pre.contains('{'),
        !post.contains('{'),
        t is FileList,
    ensures
        ({
            let files = t->FileList_0@;
            let r = command_line(a + seq![pre + "{files}"@ + post] + b, t);
            &&& r.len() == a.len() + files.len() + b.len()
            &&& forall|k: int| 0 <= k < a.len() ==> #[trigger] r[k] == a[k]
            &&& forall|k: int|
                0 <= k < files.len() ==> r[a.len() + k] == pre + (#[trigger] files[k])@ + post
            &&& forall|k: int|
                0 <= k < b.len() ==> r[a.len() + files.len() + k] == #[trigger] b[k]
        }),
{
    let arg = pre + "{files}"@ + post;
    lemma_files_slot(pre, post, Seq::empty());
    lemma_one_slot(a, arg, b, t);
    let files = t->FileList_0@;
    let r = command_line(a + seq![arg] + b, t);
    let fs = views(files);
    assert(r == a + for_each_file(arg, fs) + b);
    assert forall|k: int| 0 <= k < files.len() implies r[a.len() + k] == pre + (
    #[trigger] files[k])@ + post by {
        lemma_files_slot(pre, post, files[k]@);
        assert(fs[k] == files[k]@);
        assert(r[a.len() + k] == for_each_file(arg, fs)[k]);
    }
}

/// A command line with `{files-csv}` in it gets all files in its place, in
/// order, with a comma between any two.
pub proof fn law_listed_files_go_in_their_place(
    a: Seq<Seq<char>>,
    pre: Seq<char>,
    post: Seq<char>,
    b: Seq<Seq<char>>,
    t: PlayTarget,
)
    requires
        forall|k: int| 0 <= k < a.len() ==> !(#[trigger] a[k]).contains('{'),
        forall|k: int| 0 <= k < b.len() ==> !(#[trigger] b[k]).contains('{'),
        !pre.contains('{'),
        !post.contains('{'),
        t is FileList,
    ensures
        command_line(a + seq![pre + "{files-csv}"@ + post] + b, t) == a + seq![
            pre + joined_texts(views(t->FileList_0@), ","@) + post,
        ] + b,
{
    reveal_strlit("{files-csv}");
    let arg = pre + "{files-csv}"@ + post;
    assert(arg.subrange(pre.len() as int, (pre.len() + "{files-csv}"@.len()) as int)
        =~= "{files-csv}"@);
    assert(crate::text::occurs_at(arg, "{files-csv}"@, pre.len() as int));
    assert(slot(arg) is FilesCsv);
    lemma_one_slot(a, arg, b, t);
    let fs = views(t->FileList_0@);
    crate::text::law_an_occurrence_is_replaced(pre, "{files-csv}"@, post, joined_texts(fs, ","@));
}

/// A command line without placeholders gets what is played at its end.
pub proof fn law_paths_go_at_the_end_of_a_plain_command(args: Seq<Seq<char>>, t: PlayTarget)
    requires
        forall|k: int| 0 <= k < args.len() ==> !(#[trigger] args[k]).contains('{'),
    ensures
        command_line(args, t) == args + (match t {
            PlayTarget::SingleFile(p) => seq![p@],
            PlayTarget::Playlist(p) => seq![p@],
            PlayTarget::FileList(fs) => views(fs@),
        }),
{
    lemma_plain_args(args, t);
}

/// A track of a collection plays from the collection's copy where that is on
/// disk, and from its own file otherwise.
pub proof fn law_copies_on_disk_are_played(
    row: TrackRow,
    copies: Map<i64, String>,
    on_disk: Seq<Seq<char>>,
)
    ensures
        path_to_play(row, None, on_disk) == row.file_path@,
        !copies.dom().contains(row.id) ==> path_to_play(row, Some(copies), on_disk) == row.file_path@,
        copies.dom().contains(row.id) && on_disk.contains(copies[row.id]@) ==> path_to_play(
            row,
            Some(copies),
            on_disk,
        ) == copies[row.id]@,
        copies.dom().contains(row.id) && !on_disk.contains(copies[row.id]@) ==> path_to_play(
            row,
            Some(copies),
            on_disk,
        ) == row.file_path@,
{
}

/// The first player of a table that is there is the one that is used.
pub proof fn law_the_first_player_found_is_used(p: RealProbes, table: Seq<Entry>, k: int)
    requires
        0 <= k < table.len(),
        found(p, table[k]) is Some,
        forall|i: int| 0 <= i < k ==> found(p, #[trigger] table[i]) is None,
    ensures
        first_found(p, table) is Some,
        first_found(p, table)->0.label == table[k].label,
        first_found(p, table)->0.argv.len() == table[k].argv.len(),
        found(p, table[k]) == Some(None::<Seq<char>>) ==> first_found(p, table)->0.argv
            == table[k].argv,
    decreases k,
{
    if k > 0 {
        assert(found(p, table[0]) is None);
        assert forall|i: int| 0 <= i < k - 1 implies found(p, #[trigger] table.skip(1)[i]) is None by {
            assert(table.skip(1)[i] == table[i + 1]);
        }
        assert(table.skip(1)[k - 1] == table[k]);
        law_the_first_player_found_is_used(p, table.skip(1), k - 1);
    } else if found(p, table[0]) == Some(None::<Seq<char>>) {
        assert(with_exe(table[0].argv, None) =~= table[0].argv);
    }
}


/// The player that comes first everywhere is mpv; on macOS the one that comes
/// with the system is last.
pub proof fn law_players_have_an_order(os: Os)
    ensures
        players(os).len() > 0,
        players(os)[0].label == "mpv"@,
        players(Os::MacOS).last().label == "Music"@,
        players(Os::Linux).map_values(|e: Entry| e.label) == seq![
            "mpv"@,
            "VLC"@,
            "Celluloid"@,
            "Haruna"@,
            "Strawberry"@,
            "Clementine"@,
            "Audacious"@,
            "DeaDBeeF"@,
            "Amberol"@,
            "Quod Libet"@,
        ],
        players(Os::MacOS).map_values(|e: Entry| e.label) == seq![
            "mpv"@,
            "IINA"@,
            "VLC"@,
            "foobar2000"@,
            "Swinsian"@,
            "Cog"@,
            "Music"@,
        ],
        players(Os::Windows).map_values(|e: Entry| e.label) == seq![
            "mpv"@,
            "VLC"@,
            "foobar2000"@,
            "VLC"@,
        ],
{
}

proof fn lemma_extensions_add(a: Seq<Seq<char>>, b: Seq<Seq<char>>)
    ensures
        try_extensions(a + b) == try_extensions(a) + try_extensions(b),
    decreases b.len(),
{
    if b.len() == 0 {
        assert(a + b =~= a);
        assert(try_extensions(a) + try_extensions(b) =~= try_extensions(a));
    } else {
        let d = b.drop_last();
        lemma_extensions_add(a, d);
        assert((a + b).drop_last() =~= a + d);
        assert((a + b).last() == b.last());
        let e = lowercased(trimmed(b.last()));
        assert((try_extensions(a) + try_extensions(d)).push(e) =~= try_extensions(a)
            + try_extensions(d).push(e));
    }
}

/// A program is looked for as it is written first, and then with each of the
/// extensions in their order, in lower case; one written with an extension
/// only as it is.
pub proof fn law_programs_are_looked_for_as_written_first(
    bin: Seq<char>,
    pathext: Option<Seq<char>>,
    a: Seq<Seq<char>>,
    b: Seq<Seq<char>>,
    e: Seq<char>,
)
    ensures
        program_names(bin, pathext).len() > 0,
        program_names(bin, pathext)[0] == bin,
        ext_of_path(bin) is Some ==> program_names(bin, pathext).len() == 1,
        try_extensions(a + b) == try_extensions(a) + try_extensions(b),
        trimmed(e).len() > 0 ==> try_extensions(seq![e]) == seq![lowercased(trimmed(e))],
        trimmed(e).len() == 0 ==> try_extensions(seq![e]).len() == 0,
{
    lemma_extensions_add(a, b);
    let one = seq![e];
    let none = Seq::<Seq<char>>::empty();
    assert(one.drop_last() =~= none);
    assert(one.last() == e);
    assert(try_extensions(one.drop_last()) =~= none);
    assert(none.push(lowercased(trimmed(e))) =~= seq![lowercased(trimmed(e))]);
}

} // verus!
