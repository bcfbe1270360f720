//! The command line: its grammar, and what is made of its options.
use vstd::prelude::*;

use crate::importer::{capped, ImportResult};
use crate::organizer::OrganizeFilter;
use crate::rows::copy_text;
use crate::text::{
    ascii_lower_text, ascii_lowered, chars_of, decimal, join_texts, joined_texts, number_text,
    opt_view, same, text_of, trim, trimmed, views,
};

verus! {

/// A command line.
#[derive(Debug)]
pub struct Cli {
    /// The configuration file to use in place of the default one.
    pub config: Option<String>,
    pub command: Option<Command>,
}

/// A command with its options.
#[derive(Debug)]
pub enum Command {
    /// Takes files into the library.
    Import {
        /// The path to scan, in place of the inbox directories.
        path: Option<String>,
        pretend: bool,
        /// Keeps the files as single tracks.
        loose: bool,
        /// The collection that the tracks are added to.
        collection: Option<String>,
    },
    /// Shows the tags of a file.
    Info { path: String },
    /// Runs the setup wizard.
    Setup,
    /// Shows where things are.
    Paths,
    /// Lists new files in the inbox directories.
    Scan,
    /// Previews and applies a reorganization of the files.
    Organize {
        apply: bool,
        /// Skips the confirmation.
        yes: bool,
        pretend: bool,
        /// Lists every file.
        details: bool,
        artist: Option<String>,
        album: Option<String>,
        path: Option<String>,
        collection: Option<String>,
    },
    /// Hands files to an external player.
    Play {
        album: Option<String>,
        collection: Option<String>,
        path: Option<String>,
        /// Shows what would be started.
        dry_run: bool,
    },
}

/// Why a command line is not taken.
#[derive(Debug, Clone, Copy, PartialEq, Eq, Structural)]
pub enum CliError {
    /// Help was asked for.
    Help,
    /// The version was asked for.
    Version,
    UnknownCommand,
    UnknownArgument,
    /// An option without its value.
    MissingValue,
    /// A switch with a value.
    UnexpectedValue,
    /// An option that is given twice.
    Repeated,
    /// Options that exclude each other.
    Conflict,
    /// An option without another that it requires.
    Requires,
    /// A command without an argument that it requires.
    MissingArgument,
}

/// The commands.
#[derive(Debug, Clone, Copy, PartialEq, Eq, Structural)]
pub enum Verb {
    Import,
    Info,
    Setup,
    Paths,
    Scan,
    Organize,
    Play,
}

/// The options of all commands.
#[derive(Debug, Clone, Copy, PartialEq, Eq, Structural)]
pub enum Opt {
    Config,
    Help,
    Version,
    Pretend,
    Loose,
    Collection,
    Apply,
    Yes,
    Details,
    Artist,
    Album,
    Path,
    DryRun,
}

/// The command of a name.
pub open spec fn verb_named(s: Seq<char>) -> Option<Verb> {
    if s == "import"@ {
        Some(Verb::Import)
    } else if s == "info"@ {
        Some(Verb::Info)
    } else if s == "setup"@ {
        Some(Verb::Setup)
    } else if s == "paths"@ {
        Some(Verb::Paths)
    } else if s == "scan"@ {
        Some(Verb::Scan)
    } else if s == "organize"@ {
        Some(Verb::Organize)
    } else if s == "play"@ {
        Some(Verb::Play)
    } else {
        None
    }
}

fn find_verb(s: &str) -> (r: Option<Verb>)
    ensures
        r == verb_named(s@),
{
    if same(s, "import") {
        Some(Verb::Import)
    } else if same(s, "info") {
        Some(Verb::Info)
    } else if same(s, "setup") {
        Some(Verb::Setup)
    } else if same(s, "paths") {
        Some(Verb::Paths)
    } else if same(s, "scan") {
        Some(Verb::Scan)
    } else if same(s, "organize") {
        Some(Verb::Organize)
    } else if same(s, "play") {
        Some(Verb::Play)
    } else {
        None
    }
}

/// The option of a long name.
pub open spec fn opt_named(s: Seq<char>) -> Option<Opt> {
    if s == "config"@ {
        Some(Opt::Config)
    } else if s == "help"@ {
        Some(Opt::Help)
    } else if s == "version"@ {
        Some(Opt::Version)
    } else if s == "pretend"@ {
        Some(Opt::Pretend)
    } else if s == "loose"@ {
        Some(Opt::Loose)
    } else if s == "collection"@ {
        Some(Opt::Collection)
    } else if s == "apply"@ {
        Some(Opt::Apply)
    } else if s == "yes"@ {
        Some(Opt::Yes)
    } else if s == "details"@ {
        Some(Opt::Details)
    } else if s == "artist"@ {
        Some(Opt::Artist)
    } else if s == "album"@ {
        Some(Opt::Album)
    } else if s == "path"@ {
        Some(Opt::Path)
    } else if s == "dry-run"@ {
        Some(Opt::DryRun)
    } else {
        None
    }
}

fn find_opt(s: &str) -> (r: Option<Opt>)
    ensures
        r == opt_named(s@),
{
    if same(s, "config") {
        Some(Opt::Config)
    } else if same(s, "help") {
        Some(Opt::Help)
    } else if same(s, "version") {
        Some(Opt::Version)
    } else if same(s, "pretend") {
        Some(Opt::Pretend)
    } else if same(s, "loose") {
        Some(Opt::Loose)
    } else if same(s, "collection") {
        Some(Opt::Collection)
    } else if same(s, "apply") {
        Some(Opt::Apply)
    } else if same(s, "yes") {
        Some(Opt::Yes)
    } else if same(s, "details") {
        Some(Opt::Details)
    } else if same(s, "artist") {
        Some(Opt::Artist)
    } else if same(s, "album") {
        Some(Opt::Album)
    } else if same(s, "path") {
        Some(Opt::Path)
    } else if same(s, "dry-run") {
        Some(Opt::DryRun)
    } else {
        None
    }
}

/// Whether a command has an option. The configuration file and help can be
/// given anywhere, the version only before a command.
pub open spec fn has_opt(verb: Option<Verb>, o: Opt) -> bool {
    match o {
        Opt::Config => true,
        Opt::Help => true,
        Opt::Version => verb is None,
        Opt::Pretend => verb == Some(Verb::Import) || verb == Some(Verb::Organize),
        Opt::Loose => verb == Some(Verb::Import),
        Opt::Collection => verb == Some(Verb::Import) || verb == Some(Verb::Organize) || verb
            == Some(Verb::Play),
        Opt::Apply => verb == Some(Verb::Organize),
        Opt::Yes => verb == Some(Verb::Organize),
        Opt::Details => verb == Some(Verb::Organize),
        Opt::Artist => verb == Some(Verb::Organize),
        Opt::Album => verb == Some(Verb::Organize) || verb == Some(Verb::Play),
        Opt::Path => verb == Some(Verb::Organize),
        Opt::DryRun => verb == Some(Verb::Play),
    }
}

fn is_opt_of(verb: Option<Verb>, o: Opt) -> (r: bool)
    ensures
        r == has_opt(verb, o),
{
    let (import, organize, play) = match verb {
        Some(Verb::Import) => (true, false, false),
        Some(Verb::Organize) => (false, true, false),
        Some(Verb::Play) => (false, false, true),
        _ => (false, false, false),
    };
    match o {
        Opt::Config => true,
        Opt::Help => true,
        Opt::Version => verb.is_none(),
        Opt::Pretend => import || organize,
        Opt::Loose => import,
        Opt::Collection => import || organize || play,
        Opt::Apply => organize,
        Opt::Yes => organize,
        Opt::Details => organize,
        Opt::Artist => organize,
        Opt::Album => organize || play,
        Opt::Path => organize,
        Opt::DryRun => play,
    }
}

/// Whether an option takes a value.
pub open spec fn takes_value(o: Opt) -> bool {
    o == Opt::Config || o == Opt::Collection || o == Opt::Artist || o == Opt::Album || o == Opt::Path
}

/// The option of a letter. Which option a letter means depends on the
/// command.
pub open spec fn opt_lettered(verb: Option<Verb>, c: char) -> Option<Opt> {
    if c == 'h' {
        Some(Opt::Help)
    } else if c == 'V' && verb is None {
        Some(Opt::Version)
    } else if c == 'p' && verb == Some(Verb::Import) {
        Some(Opt::Pretend)
    } else if c == 'y' && verb == Some(Verb::Organize) {
        Some(Opt::Yes)
    } else if c == 'd' && verb == Some(Verb::Organize) {
        Some(Opt::Details)
    } else {
        None
    }
}

fn find_letter(verb: Option<Verb>, c: char) -> (r: Option<Opt>)
    ensures
        r == opt_lettered(verb, c),
{
    match verb {
        None => if c == 'h' {
            Some(Opt::Help)
        } else if c == 'V' {
            Some(Opt::Version)
        } else {
            None
        },
        Some(Verb::Import) => if c == 'h' {
            Some(Opt::Help)
        } else if c == 'p' {
            Some(Opt::Pretend)
        } else {
            None
        },
        Some(Verb::Organize) => if c == 'h' {
            Some(Opt::Help)
        } else if c == 'y' {
            Some(Opt::Yes)
        } else if c == 'd' {
            Some(Opt::Details)
        } else {
            None
        },
        Some(_) => if c == 'h' {
            Some(Opt::Help)
        } else {
            None
        },
    }
}

/// Whether a command takes a path beside its options.
pub open spec fn takes_word(verb: Verb) -> bool {
    verb == Verb::Import || verb == Verb::Info || verb == Verb::Play
}

/// What the arguments so far have said.
pub struct Said {
    pub verb: Option<Verb>,
    pub switches: Seq<Opt>,
    /// The values given since the command, or before it where there is none.
    pub values: Seq<(Opt, Seq<char>)>,
    /// The configuration that was given before the command.
    pub outer_config: Option<Seq<char>>,
    pub word: Option<Seq<char>>,
    /// The option whose value comes next.
    pub pending: Option<Opt>,
    /// Whether only words come from now on.
    pub plain: bool,
}

/// Whether an option has a value.
pub open spec fn is_given(values: Seq<(Opt, Seq<char>)>, o: Opt) -> bool {
    exists|i: int| 0 <= i < values.len() && (#[trigger] values[i]).0 == o
}

/// Whether an option's value is a path.
pub open spec fn takes_path(o: Opt) -> bool {
    o == Opt::Config || o == Opt::Path
}

/// After an option's value. A path is not empty.
pub open spec fn with_value(s: Said, o: Opt, v: Seq<char>) -> Result<Said, CliError> {
    if is_given(s.values, o) {
        Err(CliError::Repeated)
    } else if takes_path(o) && v.len() == 0 {
        Err(CliError::MissingValue)
    } else {
        Ok(Said { values: s.values.push((o, v)), pending: None, ..s })
    }
}

/// After a switch.
pub open spec fn with_switch(s: Said, o: Opt) -> Result<Said, CliError> {
    if o == Opt::Help {
        Err(CliError::Help)
    } else if o == Opt::Version {
        Err(CliError::Version)
    } else if s.switches.contains(o) {
        Err(CliError::Repeated)
    } else {
        Ok(Said { switches: s.switches.push(o), ..s })
    }
}

/// After an argument that is no option: the command, or the command's path,
/// which is not empty. Options are counted anew behind the command.
pub open spec fn with_word(s: Said, arg: Seq<char>) -> Result<Said, CliError> {
    match s.verb {
        None => if s.plain {
            Err(CliError::UnknownArgument)
        } else if arg == "help"@ {
            Err(CliError::Help)
        } else {
            match verb_named(arg) {
                Some(v) => Ok(
                    Said {
                        verb: Some(v),
                        values: Seq::empty(),
                        outer_config: value_of(s.values, Opt::Config),
                        ..s
                    },
                ),
                None => Err(CliError::UnknownCommand),
            }
        },
        Some(v) => if !takes_word(v) || s.word is Some {
            Err(CliError::UnknownArgument)
        } else if arg.len() == 0 {
            Err(CliError::MissingValue)
        } else {
            Ok(Said { word: Some(arg), ..s })
        },
    }
}

/// After the letters `cs[i..]` behind one dash.
pub open spec fn with_letters(s: Said, cs: Seq<char>, i: int) -> Result<Said, CliError>
    decreases cs.len() - i,
{
    if i < 0 || i >= cs.len() {
        Ok(s)
    } else {
        match opt_lettered(s.verb, cs[i]) {
            None => Err(CliError::UnknownArgument),
            Some(o) => match with_switch(s, o) {
                Ok(t) => with_letters(t, cs, i + 1),
                Err(e) => Err(e),
            },
        }
    }
}

/// The first position at or after `i` of an equals sign, or the end.
pub open spec fn name_stop(s: Seq<char>, i: int) -> int
    decreases s.len() - i,
{
    if 0 <= i < s.len() && s[i] != '=' { name_stop(s, i + 1) } else { i }
}

/// After an option behind two dashes.
pub open spec fn with_long(s: Said, arg: Seq<char>) -> Result<Said, CliError> {
    let e = name_stop(arg, 2);
    match opt_named(arg.subrange(2, e)) {
        None => Err(CliError::UnknownArgument),
        Some(o) => if !has_opt(s.verb, o) {
            Err(CliError::UnknownArgument)
        } else if takes_value(o) {
            if e < arg.len() {
                with_value(s, o, arg.skip(e + 1))
            } else if is_given(s.values, o) {
                Err(CliError::Repeated)
            } else {
                Ok(Said { pending: Some(o), ..s })
            }
        } else if e < arg.len() {
            Err(CliError::UnexpectedValue)
        } else {
            with_switch(s, o)
        },
    }
}

/// Whether an argument looks like an option.
pub open spec fn is_dashed(arg: Seq<char>) -> bool {
    arg.len() > 1 && arg[0] == '-'
}

/// After one more argument.
pub open spec fn with_arg(s: Said, arg: Seq<char>) -> Result<Said, CliError> {
    match s.pending {
        Some(o) => if is_dashed(arg) { Err(CliError::MissingValue) } else { with_value(s, o, arg) },
        None => if s.plain || !is_dashed(arg) {
            with_word(s, arg)
        } else if arg == "--"@ {
            Ok(Said { plain: true, ..s })
        } else if arg[1] == '-' {
            with_long(s, arg)
        } else {
            with_letters(s, arg, 1)
        },
    }
}

/// Before any argument.
pub open spec fn nothing_said() -> Said {
    Said {
        verb: None,
        switches: Seq::empty(),
        values: Seq::empty(),
        outer_config: None,
        word: None,
        pending: None,
        plain: false,
    }
}

/// After the first `n` arguments.
pub open spec fn after_args(args: Seq<Seq<char>>, n: int) -> Result<Said, CliError>
    decreases n,
{
    if n <= 0 {
        Ok(nothing_said())
    } else {
        match after_args(args, n - 1) {
            Ok(s) => with_arg(s, args[n - 1]),
            Err(e) => Err(e),
        }
    }
}

/// The value of an option.
pub open spec fn value_of(values: Seq<(Opt, Seq<char>)>, o: Opt) -> Option<Seq<char>>
    decreases values.len(),
{
    if values.len() == 0 {
        None
    } else if values[0].0 == o {
        Some(values[0].1)
    } else {
        value_of(values.skip(1), o)
    }
}

/// How many of the filters of `organize` are given.
pub open spec fn filters_given(values: Seq<(Opt, Seq<char>)>) -> int {
    (if value_of(values, Opt::Artist) is Some { 1int } else { 0 }) + (if value_of(
        values,
        Opt::Album,
    ) is Some { 1int } else { 0 }) + (if value_of(values, Opt::Path) is Some {
        1int
    } else { 0 }) + (if value_of(values, Opt::Collection) is Some { 1int } else { 0 })
}

/// What is wrong with a whole command line: `organize` takes one filter at
/// most, does not pretend and apply at once, and asks for no confirmation to
/// be skipped unless it applies; `info` needs a path.
pub open spec fn fault(s: Said) -> Option<CliError> {
    if s.pending is Some {
        Some(CliError::MissingValue)
    } else if s.verb == Some(Verb::Info) && s.word is None {
        Some(CliError::MissingArgument)
    } else if s.verb == Some(Verb::Organize) && filters_given(s.values) > 1 {
        Some(CliError::Conflict)
    } else if s.verb == Some(Verb::Organize) && s.switches.contains(Opt::Pretend)
        && s.switches.contains(Opt::Apply) {
        Some(CliError::Conflict)
    } else if s.verb == Some(Verb::Organize) && s.switches.contains(Opt::Yes)
        && !s.switches.contains(Opt::Apply) {
        Some(CliError::Requires)
    } else {
        None
    }
}

/// Whether a command is the one that was said.
pub open spec fn is_command(c: Option<Command>, s: Said) -> bool {
    let collection = value_of(s.values, Opt::Collection);
    let album = value_of(s.values, Opt::Album);
    match c {
        None => s.verb is None,
        Some(Command::Import { path, pretend, loose, collection: col }) => {
            &&& s.verb == Some(Verb::Import)
            &&& opt_view(path) == s.word
            &&& pretend == s.switches.contains(Opt::Pretend)
            &&& loose == s.switches.contains(Opt::Loose)
            &&& opt_view(col) == collection
        },
        Some(Command::Info { path }) => s.verb == Some(Verb::Info) && Some(path@) == s.word,
        Some(Command::Setup) => s.verb == Some(Verb::Setup),
        Some(Command::Paths) => s.verb == Some(Verb::Paths),
        Some(Command::Scan) => s.verb == Some(Verb::Scan),
        Some(
            Command::Organize {
                apply,
                yes,
                pretend,
                details,
                artist,
                album: alb,
                path,
                collection: col,
            },
        ) => {
            &&& s.verb == Some(Verb::Organize)
            &&& apply == s.switches.contains(Opt::Apply)
            &&& yes == s.switches.contains(Opt::Yes)
            &&& pretend == s.switches.contains(Opt::Pretend)
            &&& details == s.switches.contains(Opt::Details)
            &&& opt_view(artist) == value_of(s.values, Opt::Artist)
            &&& opt_view(alb) == album
            &&& opt_view(path) == value_of(s.values, Opt::Path)
            &&& opt_view(col) == collection
        },
        Some(Command::Play { album: alb, collection: col, path, dry_run }) => {
            &&& s.verb == Some(Verb::Play)
            &&& opt_view(alb) == album
            &&& opt_view(col) == collection
            &&& opt_view(path) == s.word
            &&& dry_run == s.switches.contains(Opt::DryRun)
        },
    }
}

/// The configuration that was given: behind the command, or else before it.
pub open spec fn config_of(s: Said) -> Option<Seq<char>> {
    match value_of(s.values, Opt::Config) {
        Some(path) => Some(path),
        None => s.outer_config,
    }
}

/// Whether a command line was taken for what it says, or refused for what is
/// wrong with it.
pub open spec fn is_parse(args: Seq<Seq<char>>, r: Result<Cli, CliError>) -> bool {
    match after_args(args, args.len() as int) {
        Err(e) => r == Err::<Cli, CliError>(e),
        Ok(s) => match fault(s) {
            Some(e) => r == Err::<Cli, CliError>(e),
            None => r is Ok && is_command(r->Ok_0.command, s) && opt_view(r->Ok_0.config)
                == config_of(s),
        },
    }
}

/// What the arguments so far have said.
struct Heard {
    verb: Option<Verb>,
    switches: Vec<Opt>,
    values: Vec<(Opt, String)>,
    outer_config: Option<String>,
    word: Option<String>,
    pending: Option<Opt>,
    plain: bool,
}

spec fn value_views(v: Seq<(Opt, String)>) -> Seq<(Opt, Seq<char>)> {
    v.map_values(|p: (Opt, String)| (p.0, p.1@))
}

fn same_opt(a: Opt, b: Opt) -> (r: bool)
    ensures
        r == (a == b),
{
    a == b
}

impl Heard {
    spec fn said(self) -> Said {
        Said {
            verb: self.verb,
            switches: self.switches@,
            values: value_views(self.values@),
            outer_config: opt_view(self.outer_config),
            word: opt_view(self.word),
            pending: self.pending,
            plain: self.plain,
        }
    }

    fn find(&self, o: Opt) -> (r: Option<String>)
        ensures
            opt_view(r) == value_of(self.said().values, o),
            r is Some == is_given(self.said().values, o),
    {
        let ghost vs = self.said().values;
        let n: usize = self.values.len();
        let mut i: usize = 0;
        assert(vs.skip(0) =~= vs);
        while i < n
            invariant
                i <= n,
                n == self.values@.len(),
                vs == value_views(self.values@),
                value_of(vs, o) == value_of(vs.skip(i as int), o),
                forall|k: int| 0 <= k < i ==> (#[trigger] vs[k]).0 != o,
                vs == self.said().values,
            decreases n - i,
        {
            assert(vs.skip(i as int)[0] == vs[i as int]);
            assert(vs.skip(i as int).skip(1) =~= vs.skip(i + 1));
            if same_opt(self.values[i].0, o) {
                return Some(self.values[i].1.clone());
            }
            i += 1;
        }
        None
    }

    fn has_switch(&self, o: Opt) -> (r: bool)
        ensures
            r == self.said().switches.contains(o),
    {
        let mut i: usize = 0;
        while i < self.switches.len()
            invariant
                i <= self.switches@.len(),
                forall|k: int| 0 <= k < i ==> self.switches@[k] != o,
            decreases self.switches@.len() - i,
        {
            if same_opt(self.switches[i], o) {
                return true;
            }
            i += 1;
        }
        false
    }

    fn add_value(&mut self, o: Opt, v: String) -> (r: Result<(), CliError>)
        ensures
            match with_value(old(self).said(), o, v@) {
                Ok(s) => r is Ok && final(self).said() == s,
                Err(e) => r == Err::<(), CliError>(e),
            },
    {
        if self.find(o).is_some() {
            return Err(CliError::Repeated);
        }
        if (same_opt(o, Opt::Config) || same_opt(o, Opt::Path)) && v.as_str().is_empty() {
            return Err(CliError::MissingValue);
        }
        let ghost before = self.values@;
        self.values.push((o, v));
        self.pending = None;
        assert(value_views(self.values@) =~= value_views(before).push((o, v@)));
        Ok(())
    }

    fn add_switch(&mut self, o: Opt) -> (r: Result<(), CliError>)
        ensures
            match with_switch(old(self).said(), o) {
                Ok(s) => r is Ok && final(self).said() == s,
                Err(e) => r == Err::<(), CliError>(e),
            },
    {
        match o {
            Opt::Help => Err(CliError::Help),
            Opt::Version => Err(CliError::Version),
            _ => {
                if self.has_switch(o) {
                    return Err(CliError::Repeated);
                }
                self.switches.push(o);
                Ok(())
            },
        }
    }

    fn add_word(&mut self, arg: &str) -> (r: Result<(), CliError>)
        ensures
            match with_word(old(self).said(), arg@) {
                Ok(s) => r is Ok && final(self).said() == s,
                Err(e) => r == Err::<(), CliError>(e),
            },
    {
        match self.verb {
            None => {
                if self.plain {
                    return Err(CliError::UnknownArgument);
                }
                if same(arg, "help") {
                    return Err(CliError::Help);
                }
                match find_verb(arg) {
                    Some(v) => {
                        self.outer_config = self.find(Opt::Config);
                        self.values = Vec::new();
                        assert(value_views(self.values@) =~= Seq::<(Opt, Seq<char>)>::empty());
                        self.verb = Some(v);
                        Ok(())
                    },
                    None => Err(CliError::UnknownCommand),
                }
            },
            Some(v) => {
                let takes = match v {
                    Verb::Import => true,
                    Verb::Info => true,
                    Verb::Play => true,
                    _ => false,
                };
                if !takes || self.word.is_some() {
                    return Err(CliError::UnknownArgument);
                }
                if arg.is_empty() {
                    return Err(CliError::MissingValue);
                }
                self.word = Some(arg.to_owned());
                Ok(())
            },
        }
    }

    fn add_letters(&mut self, v: &Vec<char>) -> (r: Result<(), CliError>)
        requires
            v@.len() > 1,
        ensures
            match with_letters(old(self).said(), v@, 1) {
                Ok(s) => r is Ok && final(self).said() == s,
                Err(e) => r == Err::<(), CliError>(e),
            },
    {
        let n: usize = v.len();
        let mut i: usize = 1;
        while i < n
            invariant
                1 <= i <= n,
                n == v@.len(),
                with_letters(old(self).said(), v@, 1) == with_letters(self.said(), v@, i as int),
            decreases n - i,
        {
            match find_letter(self.verb, v[i]) {
                None => {
                    return Err(CliError::UnknownArgument);
                },
                Some(o) => {
                    if let Err(e) = self.add_switch(o) {
                        return Err(e);
                    }
                },
            }
            i += 1;
        }
        Ok(())
    }

    fn add_long(&mut self, v: &Vec<char>) -> (r: Result<(), CliError>)
        requires
            v@.len() >= 2,
        ensures
            match with_long(old(self).said(), v@) {
                Ok(s) => r is Ok && final(self).said() == s,
                Err(e) => r == Err::<(), CliError>(e),
            },
    {
        let n: usize = v.len();
        let mut e: usize = 2;
        while e < n && v[e] != '='
            invariant
                2 <= e <= n,
                n == v@.len(),
                name_stop(v@, 2) == name_stop(v@, e as int),
            decreases n - e,
        {
            e += 1;
        }
        let name = text_of(v, 2, e);
        match find_opt(name.as_str()) {
            None => Err(CliError::UnknownArgument),
            Some(o) => {
                if !is_opt_of(self.verb, o) {
                    return Err(CliError::UnknownArgument);
                }
                let valued = match o {
                    Opt::Config => true,
                    Opt::Collection => true,
                    Opt::Artist => true,
                    Opt::Album => true,
                    Opt::Path => true,
                    _ => false,
                };
                if valued {
                    if e < n {
                        let value = text_of(v, e + 1, n);
                        assert(value@ =~= v@.skip(e + 1));
                        self.add_value(o, value)
                    } else if self.find(o).is_some() {
                        Err(CliError::Repeated)
                    } else {
                        self.pending = Some(o);
                        Ok(())
                    }
                } else if e < n {
                    Err(CliError::UnexpectedValue)
                } else {
                    self.add_switch(o)
                }
            },
        }
    }

    fn add(&mut self, arg: &str) -> (r: Result<(), CliError>)
        ensures
            match with_arg(old(self).said(), arg@) {
                Ok(s) => r is Ok && final(self).said() == s,
                Err(e) => r == Err::<(), CliError>(e),
            },
    {
        let v = chars_of(arg);
        let dashed = v.len() > 1 && v[0] == '-';
        match self.pending {
            Some(o) => if dashed {
                Err(CliError::MissingValue)
            } else {
                self.add_value(o, arg.to_owned())
            },
            None => if self.plain || !dashed {
                self.add_word(arg)
            } else if same(arg, "--") {
                self.plain = true;
                Ok(())
            } else if v[1] == '-' {
                self.add_long(&v)
            } else {
                self.add_letters(&v)
            },
        }
    }

    fn find_fault(&self) -> (r: Option<CliError>)
        ensures
            r == fault(self.said()),
    {
        if self.pending.is_some() {
            return Some(CliError::MissingValue);
        }
        match self.verb {
            Some(Verb::Info) => if self.word.is_none() {
                Some(CliError::MissingArgument)
            } else {
                None
            },
            Some(Verb::Organize) => {
                let mut filters: usize = 0;
                if self.find(Opt::Artist).is_some() {
                    filters += 1;
                }
                if self.find(Opt::Album).is_some() {
                    filters += 1;
                }
                if self.find(Opt::Path).is_some() {
                    filters += 1;
                }
                if self.find(Opt::Collection).is_some() {
                    filters += 1;
                }
                if filters > 1 {
                    Some(CliError::Conflict)
                } else if self.has_switch(Opt::Pretend) && self.has_switch(Opt::Apply) {
                    Some(CliError::Conflict)
                } else if self.has_switch(Opt::Yes) && !self.has_switch(Opt::Apply) {
                    Some(CliError::Requires)
                } else {
                    None
                }
            },
            _ => None,
        }
    }

    fn command(&self) -> (r: Option<Command>)
        requires
            fault(self.said()) is None,
        ensures
            is_command(r, self.said()),
    {
        match self.verb {
            None => None,
            Some(Verb::Import) => Some(
                Command::Import {
                    path: copy_text(&self.word),
                    pretend: self.has_switch(Opt::Pretend),
                    loose: self.has_switch(Opt::Loose),
                    collection: self.find(Opt::Collection),
                },
            ),
            Some(Verb::Info) => match &self.word {
                Some(path) => Some(Command::Info { path: path.clone() }),
                None => None,
            },
            Some(Verb::Setup) => Some(Command::Setup),
            Some(Verb::Paths) => Some(Command::Paths),
            Some(Verb::Scan) => Some(Command::Scan),
            Some(Verb::Organize) => Some(
                Command::Organize {
                    apply: self.has_switch(Opt::Apply),
                    yes: self.has_switch(Opt::Yes),
                    pretend: self.has_switch(Opt::Pretend),
                    details: self.has_switch(Opt::Details),
                    artist: self.find(Opt::Artist),
                    album: self.find(Opt::Album),
                    path: self.find(Opt::Path),
                    collection: self.find(Opt::Collection),
                },
            ),
            Some(Verb::Play) => Some(
                Command::Play {
                    album: self.find(Opt::Album),
                    collection: self.find(Opt::Collection),
                    path: copy_text(&self.word),
                    dry_run: self.has_switch(Opt::DryRun),
                },
            ),
        }
    }
}

impl Cli {
    /// Reads a command line. The first argument is the program's own name.
    pub fn try_parse_from(args: &Vec<String>) -> (r: Result<Cli, CliError>)
        ensures
            is_parse(
                if args@.len() > 0 {
                    views(args@).skip(1)
                } else {
                    Seq::empty()
                },
                r,
            ),
    {
        let mut heard = Heard {
            verb: None,
            switches: Vec::new(),
            values: Vec::new(),
            outer_config: None,
            word: None,
            pending: None,
            plain: false,
        };
        let ghost all = if args@.len() > 0 {
            views(args@).skip(1)
        } else {
            Seq::empty()
        };
        assert(heard.said().switches =~= Seq::<Opt>::empty());
        assert(heard.said().values =~= Seq::<(Opt, Seq<char>)>::empty());
        let n: usize = args.len();
        let mut i: usize = 1;
        while i < n
            invariant
                1 <= i,
                n > 0 ==> i <= n,
                n == 0 ==> i == 1,
                n == args@.len(),
                n > 0 ==> all == views(args@).skip(1),
                n == 0 ==> all == Seq::<Seq<char>>::empty(),
                after_args(all, i - 1) == Ok::<Said, CliError>(heard.said()),
            decreases n - i,
        {
            assert(all[i - 1] == args@[i as int]@);
            if let Err(e) = heard.add(args[i].as_str()) {
                proof {
                    lemma_refusal_stands(all, i as int, all.len() as int);
                }
                return Err(e);
            }
            i += 1;
        }
        assert(views(args@).len() == n);
        assert(all.len() == i - 1);
        match heard.find_fault() {
            Some(e) => Err(e),
            None => {
                let config = match heard.find(Opt::Config) {
                    Some(path) => Some(path),
                    None => copy_text(&heard.outer_config),
                };
                Ok(Cli { config, command: heard.command() })
            },
        }
    }
}

/// What was refused stays refused, whatever comes after it.
proof fn lemma_refusal_stands(args: Seq<Seq<char>>, n: int, m: int)
    requires
        0 <= n <= m,
        after_args(args, n) is Err,
    ensures
        after_args(args, m) == after_args(args, n),
    decreases m,
{
    if n < m {
        lemma_refusal_stands(args, n, m - 1);
    }
}

/// A command line to reorganize files never asks to pretend and to apply, or
/// to skip a confirmation that is not asked for, and filters in one way at
/// most.
pub proof fn law_organize_options_agree(args: Seq<Seq<char>>, cli: Cli)
    requires
        is_parse(args, Ok::<Cli, CliError>(cli)),
        cli.command is Some,
        cli.command->0 is Organize,
    ensures
        !(cli.command->0->Organize_pretend && cli.command->0->apply),
        cli.command->0->yes ==> cli.command->0->apply,
        !(cli.command->0->artist is Some && cli.command->0->Organize_album is Some),
        !(cli.command->0->artist is Some && cli.command->0->Organize_path is Some),
        !(cli.command->0->artist is Some && cli.command->0->Organize_collection is Some),
        !(cli.command->0->Organize_album is Some && cli.command->0->Organize_path is Some),
        !(cli.command->0->Organize_album is Some && cli.command->0->Organize_collection is Some),
        !(cli.command->0->Organize_path is Some && cli.command->0->Organize_collection is Some),
{
}

// ---------------------------------------------------------------------------
// What is made of the options

/// The tracks that the options of `organize` ask for: those of an artist,
/// else of an album, else below a path, else of a collection, else all.
pub fn organize_filter(
    artist: Option<String>,
    album: Option<String>,
    path: Option<String>,
    collection: Option<String>,
) -> (r: OrganizeFilter)
    ensures
        r == (match (artist, album, path, collection) {
            (Some(a), _, _, _) => OrganizeFilter::Artist(a),
            (None, Some(a), _, _) => OrganizeFilter::Album(a),
            (None, None, Some(p), _) => OrganizeFilter::Path(p),
            (None, None, None, Some(c)) => OrganizeFilter::Collection(c),
            (None, None, None, None) => OrganizeFilter::All,
        }),
{
    if let Some(a) = artist {
        OrganizeFilter::Artist(a)
    } else if let Some(a) = album {
        OrganizeFilter::Album(a)
    } else if let Some(p) = path {
        OrganizeFilter::Path(p)
    } else if let Some(c) = collection {
        OrganizeFilter::Collection(c)
    } else {
        OrganizeFilter::All
    }
}

/// Whether an answer to a question means yes. Anything but a lone `y` does
/// not.
pub fn is_yes(input: &str) -> (r: bool)
    ensures
        r == (ascii_lowered(trimmed(input@)) == ascii_lowered("y"@)),
{
    let t = trim(input);
    let a = ascii_lower_text(t.as_str());
    let b = ascii_lower_text("y");
    same(a.as_str(), b.as_str())
}

fn add_capped(a: u32, b: u32) -> (r: u32)
    ensures
        r == capped(a as nat + b as nat),
{
    if a <= u32::MAX - b {
        a + b
    } else {
        u32::MAX
    }
}

/// Adds up what several imports did.
pub fn add_import(total: &mut ImportResult, r: ImportResult)
    ensures
        final(total).imported == capped(old(total).imported as nat + r.imported as nat),
        final(total).skipped_duplicate == capped(old(total).skipped_duplicate as nat + r.skipped_duplicate as nat),
        final(total).skipped_error == capped(old(total).skipped_error as nat + r.skipped_error as nat),
        final(total).skipped_non_utf8 == capped(old(total).skipped_non_utf8 as nat + r.skipped_non_utf8 as nat),
        final(total).added_to_collection == capped(old(total).added_to_collection as nat + r.added_to_collection as nat),
        final(total).albums_created == capped(old(total).albums_created as nat + r.albums_created as nat),
        final(total).albums_existing == capped(old(total).albums_existing as nat + r.albums_existing as nat),
        final(total).collection_created == (old(total).collection_created || r.collection_created),
        final(total).errors@ == old(total).errors@ + r.errors@,
{
    total.imported = add_capped(total.imported, r.imported);
    total.skipped_duplicate = add_capped(total.skipped_duplicate, r.skipped_duplicate);
    total.skipped_error = add_capped(total.skipped_error, r.skipped_error);
    total.skipped_non_utf8 = add_capped(total.skipped_non_utf8, r.skipped_non_utf8);
    total.added_to_collection = add_capped(total.added_to_collection, r.added_to_collection);
    total.albums_created = add_capped(total.albums_created, r.albums_created);
    total.albums_existing = add_capped(total.albums_existing, r.albums_existing);
    total.collection_created = total.collection_created || r.collection_created;
    let mut more = r.errors;
    total.errors.append(&mut more);
}

/// What a command needs of the configuration.
#[derive(Debug, Clone, Copy, PartialEq, Eq, Structural)]
pub enum Need {
    /// Nothing: it runs where the configuration is missing or broken.
    Nothing,
    /// The configuration is not there, and nothing was asked for.
    Welcome,
    /// The configuration is not there.
    Missing,
    /// The configuration has to be read.
    Config,
}

/// What a command needs of the configuration, given whether there is one.
/// A broken configuration is what setup is for, so that must not need it.
pub fn need(command: &Option<Command>, there: bool) -> (r: Need)
    ensures
        r == (match *command {
            Some(Command::Setup) | Some(Command::Paths) | Some(Command::Info { .. }) => Need::Nothing,
            Some(_) => if there { Need::Config } else { Need::Missing },
            None => if there { Need::Config } else { Need::Welcome },
        }),
{
    match command {
        Some(c) => match c {
            Command::Setup => Need::Nothing,
            Command::Paths => Need::Nothing,
            Command::Info { .. } => Need::Nothing,
            _ => if there {
                Need::Config
            } else {
                Need::Missing
            },
        },
        None => if there {
            Need::Config
        } else {
            Need::Welcome
        },
    }
}

/// A number of tracks in words.
pub open spec fn tracks_word(n: u32) -> Seq<char> {
    if n == 1 { "track"@ } else { "tracks"@ }
}

/// What happened to a collection, part by part.
pub open spec fn collection_parts(imported: u32, existing: u32) -> Seq<Seq<char>> {
    (if imported > 0 {
        seq![decimal(imported as nat) + " "@ + tracks_word(imported)]
    } else {
        Seq::empty()
    }) + (if existing > 0 {
        seq![decimal(existing as nat) + " existing "@ + tracks_word(existing) + " added"@]
    } else {
        Seq::empty()
    })
}

fn word_for(n: u32) -> (r: &'static str)
    ensures
        r@ == tracks_word(n),
{
    if n == 1 {
        "track"
    } else {
        "tracks"
    }
}

/// What is said of the collection that an import added to, where it added
/// anything.
pub fn collection_notice(name: &str, total: &ImportResult) -> (r: Option<String>)
    ensures
        opt_view(r) == (if total.imported == 0 && total.added_to_collection == 0 {
            None
        } else {
            Some(
                (if total.collection_created { "Collection created"@ } else { "Collection"@ })
                    + ": "@ + name@ + " ("@ + joined_texts(
                    collection_parts(total.imported, total.added_to_collection),
                    ", "@,
                ) + ")"@,
            )
        }),
{
    let imported: u32 = total.imported;
    let existing: u32 = total.added_to_collection;
    if imported == 0 && existing == 0 {
        return None;
    }
    let mut parts: Vec<String> = Vec::new();
    if imported > 0 {
        let mut p = number_text(imported as u64);
        p.append(" ");
        p.append(word_for(imported));
        parts.push(p);
    }
    if existing > 0 {
        let mut p = number_text(existing as u64);
        p.append(" existing ");
        p.append(word_for(existing));
        p.append(" added");
        parts.push(p);
    }
    assert(views(parts@) =~= collection_parts(imported, existing));
    let mut s = (if total.collection_created {
        "Collection created"
    } else {
        "Collection"
    }).to_owned();
    s.append(": ");
    s.append(name);
    s.append(" (");
    s.append(join_texts(&parts, ", ").as_str());
    s.append(")");
    Some(s)
}

/// A duration in minutes and seconds.
pub open spec fn clock(ms: nat) -> Seq<char> {
    let secs = ms / 1000;
    decimal(secs / 60) + ":"@ + (if secs % 60 < 10 { "0"@ } else { ""@ }) + decimal(secs % 60)
}

/// A duration in minutes and seconds.
pub fn duration_text(ms: u64) -> (r: String)
    ensures
        r@ == clock(ms as nat),
{
    let secs: u64 = ms / 1000;
    let mut s = number_text(secs / 60);
    s.append(":");
    s.append(
        if secs % 60 < 10 {
            "0"
        } else {
            ""
        },
    );
    s.append(number_text(secs % 60).as_str());
    s
}

/// What a found album is called: its artist and title, or the title alone
/// where the artist is unknown.
pub fn album_context(title: &str, artist: &Option<String>) -> (r: String)
    ensures
        r@ == (match opt_view(*artist) {
            Some(a) => if a.len() > 0 { a + " — "@ + title@ } else { title@ },
            None => title@,
        }),
{
    if let Some(a) = artist {
        let cs = chars_of(a.as_str());
        if cs.len() > 0 {
            let mut s = a.clone();
            s.append(" — ");
            s.append(title);
            return s;
        }
    }
    title.to_owned()
}


/// A length is shown in minutes and seconds, the seconds in two digits.
pub proof fn law_lengths_are_shown_in_minutes_and_seconds(m: nat, s: nat, r: nat)
    requires
        s < 60,
        r < 1000,
    ensures
        s >= 10 ==> clock((m * 60 + s) * 1000 + r) == decimal(m) + ":"@ + decimal(s),
        s < 10 ==> clock((m * 60 + s) * 1000 + r) == decimal(m) + ":"@ + "0"@ + decimal(s),
{
    let ms = (m * 60 + s) * 1000 + r;
    assert(ms / 1000 == m * 60 + s);
    assert((m * 60 + s) / 60 == m);
    assert((m * 60 + s) % 60 == s);
    reveal_strlit("");
    assert(decimal(m) + ":"@ + ""@ =~= decimal(m) + ":"@);
}

proof fn lemma_name_stop(s: Seq<char>, i: int, e: int)
    requires
        0 <= i <= e <= s.len(),
        forall|k: int| i <= k < e ==> s[k] != '=',
        e < s.len() ==> s[e] == '=',
    ensures
        name_stop(s, i) == e,
    decreases e - i,
{
    if i < e {
        lemma_name_stop(s, i + 1, e);
    }
}

/// The value of an option can stand behind an equals sign or in the next
/// argument: both mean the same.
pub proof fn law_values_follow_in_either_form(s: Said, name: Seq<char>, o: Opt, v: Seq<char>)
    requires
        s.pending is None,
        !s.plain,
        name.len() > 0,
        !name.contains('='),
        opt_named(name) == Some(o),
        has_opt(s.verb, o),
        takes_value(o),
        v.len() <= 1 || v[0] != '-',
        forall|i: int| 0 <= i < s.values.len() ==> (#[trigger] s.values[i]).0 != o,
    ensures
        ({
            let apart = with_arg(s, seq!['-', '-'] + name);
            &&& apart is Ok
            &&& with_arg(apart->Ok_0, v) == with_arg(s, seq!['-', '-'] + name + seq!['='] + v)
        }),
{
    let a = seq!['-', '-'] + name;
    let b = seq!['-', '-'] + name + seq!['='] + v;
    let n = name.len() as int;
    assert("--"@.len() == 2) by {
        reveal_strlit("--");
    }
    assert(a != "--"@ && b != "--"@);
    assert forall|k: int| 2 <= k < 2 + n implies a[k] != '=' && b[k] != '=' by {
        assert(a[k] == name[k - 2] && b[k] == name[k - 2]);
        assert(name.contains(name[k - 2]));
    }
    lemma_name_stop(a, 2, 2 + n);
    lemma_name_stop(b, 2, 2 + n);
    assert(a.subrange(2, 2 + n) =~= name);
    assert(b.subrange(2, 2 + n) =~= name);
    assert(b.skip(3 + n) =~= v);
    assert(!is_given(s.values, o));
    assert(a[0] == '-' && a[1] == '-' && b[0] == '-' && b[1] == '-');
    let apart = with_arg(s, a)->Ok_0;
    assert(with_arg(s, a) == Ok::<Said, CliError>(Said { pending: Some(o), ..s }));
    assert(with_value(apart, o, v) == with_value(s, o, v));
}

/// An option that was given once cannot be given again.
pub proof fn law_options_are_given_once(s: Said, o: Opt, v: Seq<char>, i: int)
    ensures
        0 <= i < s.values.len() && s.values[i].0 == o ==> with_value(s, o, v) == Err::<
            Said,
            CliError,
        >(CliError::Repeated),
        !(o is Help) && !(o is Version) && s.switches.contains(o) ==> with_switch(s, o) == Err::<
            Said,
            CliError,
        >(CliError::Repeated),
        !(o is Help) && !(o is Version) && !s.switches.contains(o) ==> with_switch(s, o) is Ok
            && with_switch(s, o)->Ok_0.switches == s.switches.push(o) && with_switch(
            s,
            o,
        )->Ok_0.values == s.values,
        o is Help ==> with_switch(s, o) == Err::<Said, CliError>(CliError::Help),
        o is Version ==> with_switch(s, o) == Err::<Said, CliError>(CliError::Version),
{
}

/// Behind a double dash every argument is a word, whatever it begins with.
pub proof fn law_a_double_dash_ends_the_options(s: Said, arg: Seq<char>)
    requires
        s.pending is None,
    ensures
        s.plain ==> with_arg(s, arg) == with_word(s, arg),
        !s.plain ==> with_arg(s, seq!['-', '-']) is Ok && with_arg(s, seq!['-', '-'])->Ok_0.plain,
        !s.plain && (arg.len() == 0 || arg[0] != '-') ==> with_arg(s, arg) == with_word(s, arg),
{
    reveal_strlit("--");
    assert("--"@ =~= seq!['-', '-']);
}

/// An organize run takes one filter at most, does not pretend and apply at
/// once, and goes without questions only where it applies.
pub proof fn law_contradictions_are_refused(s: Said)
    requires
        s.pending is None,
        s.verb == Some(Verb::Organize),
    ensures
        s.switches.contains(Opt::Pretend) && s.switches.contains(Opt::Apply) ==> fault(s) == Some(
            CliError::Conflict,
        ),
        value_of(s.values, Opt::Artist) is Some && value_of(s.values, Opt::Album) is Some ==> fault(
            s,
        ) == Some(CliError::Conflict),
        value_of(s.values, Opt::Path) is Some && value_of(s.values, Opt::Collection) is Some
            ==> fault(s) == Some(CliError::Conflict),
        s.switches.contains(Opt::Yes) && !s.switches.contains(Opt::Apply) ==> fault(s) is Some,
        s.values.len() == 0 && s.switches.len() == 0 ==> fault(s) is None,
{
}

} // verus!
