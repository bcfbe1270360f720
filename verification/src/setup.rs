//! The setup wizard's decisions: download folders of another program, the
//! choices offered, and the configuration that comes of them.
use vstd::prelude::*;

use crate::paths::{join, joined, names_path, same_path};
use crate::settings::{CoverArtSize, NameScriptPreference, Settings};
use crate::text::{
    ascii_lower_text, ascii_lowered, begins, begins_with, chars_of, is_ascii_alnum, opt_view,
    pieces, same, split_on, text_of, trim, trim_back, trim_front, trimmed, views,
};

verus! {

// ---------------------------------------------------------------------------
// Variables in paths

/// The process environment, as far as paths in configurations refer to it.
#[derive(Debug)]
pub struct Environment {
    pub vars: Vec<(String, String)>,
    pub home: Option<String>,
}

/// The value of a variable that is set and not empty.
pub open spec fn var_of(vars: Seq<(String, String)>, name: Seq<char>) -> Option<Seq<char>>
    decreases vars.len(),
{
    if vars.len() == 0 {
        None
    } else if vars[0].0@ == name {
        if vars[0].1@.len() > 0 { Some(vars[0].1@) } else { None }
    } else {
        var_of(vars.skip(1), name)
    }
}

/// A directory by a variable, or else below the home directory.
pub open spec fn base_dir(env: Environment, var: Seq<char>, fallback: Seq<char>) -> Seq<char> {
    match var_of(env.vars@, var) {
        Some(v) => v,
        None => fallback,
    }
}

/// What a variable in a path stands for. Some have a meaning where they are
/// not set.
pub open spec fn meaning(env: Environment, name: Seq<char>) -> Option<Seq<char>> {
    match (var_of(env.vars@, name), env.home) {
        (Some(v), _) => Some(v),
        (None, None) => None,
        (None, Some(home)) => {
            let share = joined(joined(home@, ".local"@), "share"@);
            let conf = joined(home@, ".config"@);
            if name == "NICOTINE_DATA_HOME"@ {
                Some(joined(base_dir(env, "XDG_DATA_HOME"@, share), "nicotine"@))
            } else if name == "NICOTINE_CONFIG_HOME"@ {
                Some(joined(base_dir(env, "XDG_CONFIG_HOME"@, conf), "nicotine"@))
            } else if name == "XDG_DATA_HOME"@ {
                Some(share)
            } else if name == "XDG_CONFIG_HOME"@ {
                Some(conf)
            } else if name == "HOME"@ {
                Some(home@)
            } else {
                None
            }
        },
    }
}

impl Environment {
    fn var(&self, name: &str) -> (r: Option<String>)
        ensures
            opt_view(r) == var_of(self.vars@, name@),
    {
        let n: usize = self.vars.len();
        let mut i: usize = 0;
        assert(self.vars@.skip(0) =~= self.vars@);
        while i < n
            invariant
                i <= n,
                n == self.vars@.len(),
                var_of(self.vars@, name@) == var_of(self.vars@.skip(i as int), name@),
            decreases n - i,
        {
            assert(self.vars@.skip(i as int)[0] == self.vars@[i as int]);
            assert(self.vars@.skip(i as int).skip(1) =~= self.vars@.skip(i + 1));
            if same(self.vars[i].0.as_str(), name) {
                let cs = chars_of(self.vars[i].1.as_str());
                if cs.len() > 0 {
                    return Some(self.vars[i].1.clone());
                }
                return None;
            }
            i += 1;
        }
        None
    }

    fn var_or(&self, name: &str, fallback: String) -> (r: String)
        ensures
            r@ == base_dir(*self, name@, fallback@),
    {
        match self.var(name) {
            Some(v) => v,
            None => fallback,
        }
    }

    /// What a variable in a path stands for.
    pub fn resolve_var(&self, name: &str) -> (r: Option<String>)
        ensures
            opt_view(r) == meaning(*self, name@),
    {
        if let Some(v) = self.var(name) {
            return Some(v);
        }
        match &self.home {
            None => None,
            Some(home) => {
                let share = join(join(home.as_str(), ".local").as_str(), "share");
                let conf = join(home.as_str(), ".config");
                if same(name, "NICOTINE_DATA_HOME") {
                    Some(join(self.var_or("XDG_DATA_HOME", share).as_str(), "nicotine"))
                } else if same(name, "NICOTINE_CONFIG_HOME") {
                    Some(join(self.var_or("XDG_CONFIG_HOME", conf).as_str(), "nicotine"))
                } else if same(name, "XDG_DATA_HOME") {
                    Some(share)
                } else if same(name, "XDG_CONFIG_HOME") {
                    Some(conf)
                } else if same(name, "HOME") {
                    Some(home.clone())
                } else {
                    None
                }
            },
        }
    }
}

/// The first position at or after `i` of a closing brace.
pub open spec fn brace_from(s: Seq<char>, i: int) -> Option<int>
    decreases s.len() - i,
{
    if i < 0 || i >= s.len() {
        None
    } else if s[i] == '}' {
        Some(i)
    } else {
        brace_from(s, i + 1)
    }
}

/// Characters of a variable's name.
pub open spec fn is_name_char(c: char) -> bool {
    is_ascii_alnum(c) || c == '_'
}

/// The end of the name that begins at `i`.
pub open spec fn name_end(s: Seq<char>, i: int) -> int
    decreases s.len() - i,
{
    if 0 <= i < s.len() && is_name_char(s[i]) { name_end(s, i + 1) } else { i }
}

/// A text before another, where there is another.
pub open spec fn before(head: Seq<char>, tail: Option<Seq<char>>) -> Option<Seq<char>> {
    match tail {
        Some(t) => Some(head + t),
        None => None,
    }
}

/// `s` from position `i` on with its variables replaced: `${NAME}` and
/// `$NAME`. There is nothing where a variable has no meaning or a brace is
/// not closed. All other characters stay.
pub open spec fn replaced_vars(env: Environment, s: Seq<char>, i: int) -> Option<Seq<char>>
    decreases s.len() - i,
{
    if i < 0 || i >= s.len() {
        Some(Seq::empty())
    } else if s[i] == '$' && i + 1 < s.len() && s[i + 1] == '{' {
        proof {
            lemma_brace_from(s, i + 2);
        }
        match brace_from(s, i + 2) {
            None => None,
            Some(e) => match meaning(env, s.subrange(i + 2, e)) {
                Some(v) => before(v, replaced_vars(env, s, e + 1)),
                None => None,
            },
        }
    } else if s[i] == '$' && name_end(s, i + 1) > i + 1 {
        proof {
            lemma_name_end(s, i + 1);
        }
        match meaning(env, s.subrange(i + 1, name_end(s, i + 1))) {
            Some(v) => before(v, replaced_vars(env, s, name_end(s, i + 1))),
            None => None,
        }
    } else {
        before(seq![s[i]], replaced_vars(env, s, i + 1))
    }
}

/// A path with its variables replaced and a leading `~` expanded.
pub open spec fn expanded_path(env: Environment, s: Seq<char>) -> Option<Seq<char>> {
    match replaced_vars(env, s, 0) {
        None => None,
        Some(out) => if out == "~"@ {
            opt_view(env.home)
        } else if begins(out, "~/"@) {
            match env.home {
                Some(home) => Some(joined(home@, out.skip(2))),
                None => None,
            }
        } else {
            Some(out)
        },
    }
}

/// A closing brace is found in the text, at or after the start.
pub proof fn lemma_brace_from(s: Seq<char>, i: int)
    requires
        0 <= i,
    ensures
        brace_from(s, i) is Some ==> i <= brace_from(s, i)->0 < s.len(),
    decreases s.len() - i,
{
    if i < s.len() && s[i] != '}' {
        lemma_brace_from(s, i + 1);
    }
}

/// A name ends in the text, at or after its start.
pub proof fn lemma_name_end(s: Seq<char>, i: int)
    requires
        0 <= i <= s.len(),
    ensures
        i <= name_end(s, i) <= s.len(),
    decreases s.len() - i,
{
    if i < s.len() && is_name_char(s[i]) {
        lemma_name_end(s, i + 1);
    }
}

fn find_brace(v: &Vec<char>, from: usize) -> (r: Option<usize>)
    requires
        from <= v@.len(),
    ensures
        match r {
            Some(e) => brace_from(v@, from as int) == Some(e as int) && from <= e < v@.len(),
            None => brace_from(v@, from as int) is None,
        },
{
    let mut i: usize = from;
    while i < v.len()
        invariant
            from <= i <= v@.len(),
            brace_from(v@, from as int) == brace_from(v@, i as int),
        decreases v@.len() - i,
    {
        if v[i] == '}' {
            return Some(i);
        }
        i += 1;
    }
    None
}

fn find_name_end(v: &Vec<char>, from: usize) -> (r: usize)
    requires
        from <= v@.len(),
    ensures
        r == name_end(v@, from as int),
        from <= r <= v@.len(),
{
    let mut i: usize = from;
    while i < v.len() && (('a' <= v[i] && v[i] <= 'z') || ('A' <= v[i] && v[i] <= 'Z') || ('0' <= v[i]
        && v[i] <= '9') || v[i] == '_')
        invariant
            from <= i <= v@.len(),
            name_end(v@, from as int) == name_end(v@, i as int),
        decreases v@.len() - i,
    {
        i += 1;
    }
    i
}

impl Environment {
    /// Replaces the variables in a path.
    fn replace_vars(&self, s: &str) -> (r: Option<String>)
        ensures
            opt_view(r) == replaced_vars(*self, s@, 0),
    {
        let v = chars_of(s);
        let n: usize = v.len();
        let mut out = String::new();
        let mut i: usize = 0;
        assert(before(out@, replaced_vars(*self, s@, 0)) == replaced_vars(*self, s@, 0)) by {
            if let Some(t) = replaced_vars(*self, s@, 0) {
                assert(out@ + t =~= t);
            }
        }
        while i < n
            invariant
                i <= n,
                n == v@.len(),
                v@ == s@,
                before(out@, replaced_vars(*self, s@, i as int)) == replaced_vars(*self, s@, 0),
            decreases n - i,
        {
            let ghost head = out@;
            if v[i] == '$' && i + 1 < n && v[i + 1] == '{' {
                match find_brace(&v, i + 2) {
                    None => {
                        return None;
                    },
                    Some(e) => {
                        let name = text_of(&v, i + 2, e);
                        match self.resolve_var(name.as_str()) {
                            None => {
                                return None;
                            },
                            Some(value) => {
                                out.append(value.as_str());
                                proof {
                                    lemma_before(head, value@, replaced_vars(*self, s@, e + 1));
                                }
                                i = e + 1;
                            },
                        }
                    },
                }
            } else {
                let e = find_name_end(&v, i + 1);
                if v[i] == '$' && e > i + 1 {
                    let name = text_of(&v, i + 1, e);
                    match self.resolve_var(name.as_str()) {
                        None => {
                            return None;
                        },
                        Some(value) => {
                            out.append(value.as_str());
                            proof {
                                lemma_before(head, value@, replaced_vars(*self, s@, e as int));
                            }
                            i = e;
                        },
                    }
                } else {
                    out.push(v[i]);
                    assert(out@ =~= head + seq![v@[i as int]]);
                    proof {
                        lemma_before(head, seq![s@[i as int]], replaced_vars(*self, s@, i + 1));
                    }
                    i += 1;
                }
            }
        }
        assert(out@ + Seq::<char>::empty() =~= out@);
        Some(out)
    }

    /// Expands `${NAME}`, `$NAME` and a leading `~` in a path. There is
    /// nothing where one of them has no meaning, so that no broken path is
    /// offered.
    pub fn expand_path_vars(&self, input: &str) -> (r: Option<String>)
        ensures
            opt_view(r) == expanded_path(*self, input@),
    {
        match self.replace_vars(input) {
            None => None,
            Some(out) => {
                if same(out.as_str(), "~") {
                    match &self.home {
                        Some(home) => Some(home.clone()),
                        None => None,
                    }
                } else if begins_with(out.as_str(), "~/") {
                    proof {
                        reveal_strlit("~/");
                    }
                    match &self.home {
                        Some(home) => {
                            let v = chars_of(out.as_str());
                            let n: usize = v.len();
                            let rest = text_of(&v, 2, n);
                            assert(rest@ =~= out@.skip(2));
                            Some(join(home.as_str(), rest.as_str()))
                        },
                        None => None,
                    }
                } else {
                    Some(out)
                }
            },
        }
    }
}

proof fn lemma_before(a: Seq<char>, b: Seq<char>, tail: Option<Seq<char>>)
    ensures
        before(a, before(b, tail)) == before(a + b, tail),
{
    if let Some(t) = tail {
        assert(a + (b + t) =~= (a + b) + t);
    }
}

// ---------------------------------------------------------------------------
// Download folders of Nicotine+

/// The section that a line opens.
pub open spec fn section_of(line: Seq<char>) -> Option<Seq<char>> {
    if line.len() >= 2 && line[0] == '[' && line.last() == ']' {
        Some(line.subrange(1, line.len() - 1))
    } else {
        None
    }
}

/// The first position of an equals sign.
pub open spec fn equals_at(line: Seq<char>, i: int) -> Option<int>
    decreases line.len() - i,
{
    if i < 0 || i >= line.len() {
        None
    } else if line[i] == '=' {
        Some(i)
    } else {
        equals_at(line, i + 1)
    }
}

/// Quotation marks.
pub open spec fn is_quote(c: char) -> bool {
    c == '\'' || c == '"'
}

/// A value without whitespace and then without quotation marks around it.
pub open spec fn unquoted(value: Seq<char>) -> Seq<char> {
    let q = |c: char| is_quote(c);
    trim_back(trim_front(trimmed(value), q), q)
}

/// The download folder that a line sets.
pub open spec fn folder_in(line: Seq<char>) -> Option<Seq<char>> {
    match equals_at(line, 0) {
        None => None,
        Some(e) => {
            let value = unquoted(line.skip(e + 1));
            if trimmed(line.take(e)) == "downloaddir"@ && value.len() > 0 {
                Some(value)
            } else {
                None
            }
        },
    }
}

/// Whether the lines so far end in the section on transfers.
pub open spec fn in_transfers(lines: Seq<Seq<char>>) -> bool
    decreases lines.len(),
{
    if lines.len() == 0 {
        false
    } else {
        match section_of(trimmed(lines.last())) {
            Some(name) => ascii_lowered(name) == ascii_lowered("transfers"@),
            None => in_transfers(lines.drop_last()),
        }
    }
}

/// The download folders that lines set in the section on transfers, as far
/// as their variables have a meaning.
pub open spec fn folders_in(env: Environment, lines: Seq<Seq<char>>) -> Seq<Seq<char>>
    decreases lines.len(),
{
    if lines.len() == 0 {
        Seq::empty()
    } else {
        let prev = folders_in(env, lines.drop_last());
        let line = trimmed(lines.last());
        let set = if section_of(line) is None && in_transfers(lines.drop_last()) {
            folder_in(line)
        } else {
            None
        };
        match set {
            Some(value) => match expanded_path(env, value) {
                Some(p) => prev.push(p),
                None => prev,
            },
            None => prev,
        }
    }
}

fn read_section(line: &str) -> (r: Option<String>)
    ensures
        opt_view(r) == section_of(line@),
{
    let v = chars_of(line);
    let n: usize = v.len();
    if n >= 2 && v[0] == '[' && v[n - 1] == ']' {
        Some(text_of(&v, 1, n - 1))
    } else {
        None
    }
}

fn strip_quotes(value: &str) -> (r: String)
    ensures
        r@ == unquoted(value@),
{
    let t = trim(value);
    let v = chars_of(t.as_str());
    let ghost s = t@;
    let ghost q = |c: char| is_quote(c);
    let mut a: usize = 0;
    assert(s.skip(0) =~= s);
    while a < v.len() && (v[a] == '\'' || v[a] == '"')
        invariant
            a <= v@.len(),
            v@ == s,
            q == (|c: char| is_quote(c)),
            trim_front(s, q) == trim_front(s.skip(a as int), q),
        decreases v@.len() - a,
    {
        assert(s.skip(a as int).skip(1) =~= s.skip(a + 1));
        a += 1;
    }
    let ghost front = s.skip(a as int);
    let mut b: usize = v.len();
    assert(front =~= s.subrange(a as int, b as int));
    while a < b && (v[b - 1] == '\'' || v[b - 1] == '"')
        invariant
            a <= b <= v@.len(),
            v@ == s,
            q == (|c: char| is_quote(c)),
            trim_back(front, q) == trim_back(s.subrange(a as int, b as int), q),
        decreases b,
    {
        assert(s.subrange(a as int, b as int).drop_last() =~= s.subrange(a as int, b - 1));
        b -= 1;
    }
    text_of(&v, a, b)
}

fn read_folder(line: &str) -> (r: Option<String>)
    ensures
        opt_view(r) == folder_in(line@),
{
    let v = chars_of(line);
    let n: usize = v.len();
    let mut e: usize = 0;
    while e < n && v[e] != '='
        invariant
            e <= n,
            n == v@.len(),
            v@ == line@,
            equals_at(line@, 0) == equals_at(line@, e as int),
        decreases n - e,
    {
        e += 1;
    }
    if e == n {
        return None;
    }
    let key = text_of(&v, 0, e);
    let value = text_of(&v, e + 1, n);
    assert(key@ =~= line@.take(e as int));
    assert(value@ =~= line@.skip(e + 1));
    let name = trim(key.as_str());
    if !same(name.as_str(), "downloaddir") {
        return None;
    }
    let plain = strip_quotes(value.as_str());
    let cs = chars_of(plain.as_str());
    if cs.len() == 0 {
        None
    } else {
        Some(plain)
    }
}

impl Environment {
    /// The download folders that a Nicotine+ configuration sets.
    pub fn download_folders(&self, content: &str) -> (r: Vec<String>)
        ensures
            views(r@) == folders_in(*self, pieces(content@, '\n')),
    {
        let lines = split_on(content, '\n');
        let ghost ls = views(lines@);
        let mut out: Vec<String> = Vec::new();
        let mut inside = false;
        let n: usize = lines.len();
        let mut i: usize = 0;
        assert(views(out@) =~= folders_in(*self, ls.take(0)));
        while i < n
            invariant
                i <= n,
                n == lines@.len(),
                ls == views(lines@),
                inside == in_transfers(ls.take(i as int)),
                views(out@) == folders_in(*self, ls.take(i as int)),
            decreases n - i,
        {
            let ghost seen = out@;
            assert(ls.take(i + 1).drop_last() =~= ls.take(i as int));
            assert(ls.take(i + 1).last() == lines@[i as int]@);
            let line = trim(lines[i].as_str());
            match read_section(line.as_str()) {
                Some(name) => {
                    let a = ascii_lower_text(name.as_str());
                    let b = ascii_lower_text("transfers");
                    inside = same(a.as_str(), b.as_str());
                },
                None => {
                    if inside {
                        if let Some(value) = read_folder(line.as_str()) {
                            if let Some(p) = self.expand_path_vars(value.as_str()) {
                                out.push(p);
                                assert(views(out@) =~= views(seen).push(p@));
                            }
                        }
                    }
                },
            }
            i += 1;
        }
        assert(ls.take(n as int) =~= ls);
        out
    }

    /// The places where a Nicotine+ configuration may stand, given the
    /// platform's configuration directory.
    pub fn nicotine_configs(&self, config_dir: &Option<String>) -> (r: Vec<String>)
        ensures
            views(r@) == nicotine_places(opt_view(*config_dir), opt_view(self.home)),
    {
        let mut out: Vec<String> = Vec::new();
        if let Some(dir) = config_dir {
            out.push(join(join(dir.as_str(), "nicotine").as_str(), "config"));
        }
        if let Some(home) = &self.home {
            let conf = join(home.as_str(), ".config");
            let p = join(join(conf.as_str(), "nicotine").as_str(), "config");
            let known = match config_dir {
                Some(_) => same_path(out[0].as_str(), p.as_str()),
                None => false,
            };
            if !known {
                out.push(p);
            }
        }
        assert(views(out@) =~= nicotine_places(opt_view(*config_dir), opt_view(self.home)));
        out
    }
}

/// The places where a Nicotine+ configuration may stand, each once.
pub open spec fn nicotine_places(config_dir: Option<Seq<char>>, home: Option<Seq<char>>) -> Seq<
    Seq<char>,
> {
    let first = match config_dir {
        Some(d) => seq![joined(joined(d, "nicotine"@), "config"@)],
        None => Seq::empty(),
    };
    match home {
        Some(h) => {
            let p = joined(joined(joined(h, ".config"@), "nicotine"@), "config"@);
            if first.len() > 0 && crate::paths::comps(first[0]) == crate::paths::comps(p) {
                first
            } else {
                first.push(p)
            }
        },
        None => first,
    }
}

// ---------------------------------------------------------------------------
// Asking for a directory

/// How far the question for a directory has come. A path is kept as it was
/// typed and with its `~` expanded.
#[derive(Debug)]
pub enum DirStage {
    Asking,
    /// Is the path there?
    Probing { typed: String, path: String },
    /// May it be made?
    Offering { typed: String, path: String },
    /// Making it.
    Creating { typed: String, path: String },
    /// Is it usable?
    Checking { typed: String, path: String },
    Done { typed: String, path: String },
    /// Nothing was typed where that ends the questions.
    Skipped,
}

/// What came of the last step of the question.
#[derive(Debug)]
pub enum DirEvent {
    Typed(String),
    Probed(bool),
    Agreed(bool),
    /// The directory was made, or could not be, and why.
    Created(Option<String>),
    /// The directory is usable, or is not, and why.
    Checked(Option<String>),
}

/// What is said before the question is asked again.
pub open spec fn pick_another() -> Seq<char> {
    "  → pick a different path."@
}

/// Whether a stage holds a path.
pub open spec fn holds_path(s: DirStage, typed: Seq<char>, path: Seq<char>) -> bool {
    match s {
        DirStage::Asking => false,
        DirStage::Probing { typed: t, path: p } => t@ == typed && p@ == path,
        DirStage::Offering { typed: t, path: p } => t@ == typed && p@ == path,
        DirStage::Creating { typed: t, path: p } => t@ == typed && p@ == path,
        DirStage::Checking { typed: t, path: p } => t@ == typed && p@ == path,
        DirStage::Done { typed: t, path: p } => t@ == typed && p@ == path,
        DirStage::Skipped => false,
    }
}

/// Whether `next`, with a note, is what follows an event.
pub open spec fn follows_event(
    stage: DirStage,
    event: DirEvent,
    home: Option<Seq<char>>,
    optional: bool,
    next: DirStage,
    note: Option<Seq<char>>,
) -> bool {
    match (stage, event) {
        (DirStage::Asking, DirEvent::Typed(t)) => if optional && trimmed(t@).len() == 0 {
            next is Skipped && note is None
        } else {
            next is Probing && note is None && holds_path(
                next,
                t@,
                crate::settings::tilde_expanded(t@, home),
            )
        },
        (DirStage::Probing { typed, path }, DirEvent::Probed(there)) => note is None && holds_path(
            next,
            typed@,
            path@,
        ) && if there { next is Checking } else { next is Offering },
        (DirStage::Offering { typed, path }, DirEvent::Agreed(yes)) => if yes {
            next is Creating && note is None && holds_path(next, typed@, path@)
        } else {
            next is Asking && note == Some(pick_another())
        },
        (DirStage::Creating { typed, path }, DirEvent::Created(error)) => match error {
            None => next is Checking && note is None && holds_path(next, typed@, path@),
            Some(e) => next is Asking && note == Some("  Could not create directory: "@ + e@),
        },
        (DirStage::Checking { typed, path }, DirEvent::Checked(reason)) => match reason {
            None => next is Done && note is None && holds_path(next, typed@, path@),
            Some(r) => next is Asking && note == Some("  "@ + r@ + "\n"@ + pick_another()),
        },
        _ => next == stage && note is None,
    }
}

/// What follows an event, and what is said of it. Where `optional`, an empty
/// answer ends the questions. An event that does not suit the stage changes
/// nothing.
pub fn ask_dir(stage: DirStage, event: DirEvent, home: &Option<String>, optional: bool) -> (r: (
    DirStage,
    Option<String>,
))
    ensures
        follows_event(stage, event, opt_view(*home), optional, r.0, opt_view(r.1)),
{
    match (stage, event) {
        (DirStage::Asking, DirEvent::Typed(typed)) => {
            let t = trim(typed.as_str());
            let cs = chars_of(t.as_str());
            if optional && cs.len() == 0 {
                (DirStage::Skipped, None)
            } else {
                let path = crate::settings::expand_tilde(typed.as_str(), home);
                (DirStage::Probing { typed, path }, None)
            }
        },
        (DirStage::Probing { typed, path }, DirEvent::Probed(there)) => {
            if there {
                (DirStage::Checking { typed, path }, None)
            } else {
                (DirStage::Offering { typed, path }, None)
            }
        },
        (DirStage::Offering { typed, path }, DirEvent::Agreed(yes)) => {
            if yes {
                (DirStage::Creating { typed, path }, None)
            } else {
                (DirStage::Asking, Some("  → pick a different path.".to_owned()))
            }
        },
        (DirStage::Creating { typed, path }, DirEvent::Created(error)) => match error {
            None => (DirStage::Checking { typed, path }, None),
            Some(e) => {
                let mut s = "  Could not create directory: ".to_owned();
                s.append(e.as_str());
                (DirStage::Asking, Some(s))
            },
        },
        (DirStage::Checking { typed, path }, DirEvent::Checked(reason)) => match reason {
            None => (DirStage::Done { typed, path }, None),
            Some(r) => {
                let mut s = "  ".to_owned();
                s.append(r.as_str());
                s.append("\n");
                s.append("  → pick a different path.");
                (DirStage::Asking, Some(s))
            },
        },
        (stage, _) => (stage, None),
    }
}

/// A directory is taken only after it was found usable.
pub proof fn law_only_usable_directories_are_taken(
    stage: DirStage,
    event: DirEvent,
    home: Option<Seq<char>>,
    optional: bool,
    next: DirStage,
    note: Option<Seq<char>>,
)
    requires
        follows_event(stage, event, home, optional, next, note),
        next is Done,
        !(stage is Done),
    ensures
        event == DirEvent::Checked(None),
        stage is Checking,
        holds_path(stage, next->Done_typed@, next->Done_path@),
{
}

// ---------------------------------------------------------------------------
// Inbox directories

/// Whether a list of paths names a path.
pub open spec fn names(list: Seq<Seq<char>>, p: Seq<char>) -> bool {
    exists|i: int|
        0 <= i < list.len() && crate::paths::comps(#[trigger] list[i]) == crate::paths::comps(p)
}

/// Adds a directory to a list that does not name it yet.
pub fn add_dir(list: &mut Vec<String>, dir: String)
    ensures
        views(final(list)@) == (if names(views(old(list)@), dir@) {
            views(old(list)@)
        } else {
            views(old(list)@).push(dir@)
        }),
{
    let ghost before = list@;
    let known = names_path(list, dir.as_str());
    proof {
        if known {
            let i = choose|i: int|
                0 <= i < before.len() && crate::paths::comps(#[trigger] before[i]@)
                    == crate::paths::comps(dir@);
            assert(views(before)[i] == before[i]@);
        }
        if names(views(before), dir@) {
            let i = choose|i: int|
                0 <= i < views(before).len() && crate::paths::comps(#[trigger] views(before)[i])
                    == crate::paths::comps(dir@);
            assert(before[i]@ == views(before)[i]);
        }
    }
    if !known {
        list.push(dir);
        assert(views(list@) =~= views(before).push(dir@));
    }
}

/// Why a directory cannot be an inbox, given what was found on disk.
pub fn validate_inbox_dir(path: &str, exists: bool, is_dir: bool) -> (r: Option<String>)
    ensures
        opt_view(r) == (if !exists {
            Some("does not exist: "@ + path@)
        } else if !is_dir {
            Some("not a directory: "@ + path@)
        } else {
            None
        }),
{
    crate::settings::library_dir_fault(path, exists, is_dir, &None)
}

// ---------------------------------------------------------------------------
// Choices

/// The place of a script preference among the choices.
pub fn script_index(s: NameScriptPreference) -> (r: usize)
    ensures
        r == (match s {
            NameScriptPreference::Native => 0,
            NameScriptPreference::Latin => 1usize,
        }),
{
    match s {
        NameScriptPreference::Native => 0,
        NameScriptPreference::Latin => 1,
    }
}

/// The place of a cover size among the choices.
pub fn size_index(s: CoverArtSize) -> (r: usize)
    ensures
        r == (match s {
            CoverArtSize::Px250 => 0,
            CoverArtSize::Px500 => 1,
            CoverArtSize::Px1200 => 2,
            CoverArtSize::Original => 3usize,
        }),
{
    match s {
        CoverArtSize::Px250 => 0,
        CoverArtSize::Px500 => 1,
        CoverArtSize::Px1200 => 2,
        CoverArtSize::Original => 3,
    }
}

/// What stands before the first space of a choice.
pub open spec fn first_word(choice: Seq<char>) -> Seq<char> {
    pieces(choice, ' ')[0]
}

proof fn lemma_pieces_not_empty(s: Seq<char>, sep: char)
    ensures
        pieces(s, sep).len() > 0,
    decreases s.len(),
{
    if s.len() > 0 {
        lemma_pieces_not_empty(s.drop_last(), sep);
    }
}

fn word_of(choice: &str) -> (r: String)
    ensures
        r@ == first_word(choice@),
{
    let mut parts = split_on(choice, ' ');
    proof {
        lemma_pieces_not_empty(choice@, ' ');
        assert(views(parts@)[0] == parts@[0]@);
    }
    parts.remove(0)
}

/// The script preference that a choice stands for.
pub fn script_chosen(choice: &str) -> (r: NameScriptPreference)
    ensures
        r == (if first_word(choice@) == "latin"@ {
            NameScriptPreference::Latin
        } else {
            NameScriptPreference::Native
        }),
{
    let w = word_of(choice);
    if same(w.as_str(), "latin") {
        NameScriptPreference::Latin
    } else {
        NameScriptPreference::Native
    }
}

/// The cover size that a choice stands for.
pub fn size_chosen(choice: &str) -> (r: CoverArtSize)
    ensures
        r == (if first_word(choice@) == "250"@ {
            CoverArtSize::Px250
        } else if first_word(choice@) == "1200"@ {
            CoverArtSize::Px1200
        } else if first_word(choice@) == "original"@ {
            CoverArtSize::Original
        } else {
            CoverArtSize::Px500
        }),
{
    let w = word_of(choice);
    if same(w.as_str(), "250") {
        CoverArtSize::Px250
    } else if same(w.as_str(), "1200") {
        CoverArtSize::Px1200
    } else if same(w.as_str(), "original") {
        CoverArtSize::Original
    } else {
        CoverArtSize::Px500
    }
}

/// The theme that a choice stands for.
pub fn theme_chosen(choice: &str) -> (r: String)
    ensures
        r@ == first_word(choice@),
{
    word_of(choice)
}

/// The first choice that begins with a theme's name.
pub open spec fn theme_from(themes: Seq<Seq<char>>, theme: Seq<char>, i: int) -> Option<int>
    decreases themes.len() - i,
{
    if i < 0 || i >= themes.len() {
        None
    } else if begins(themes[i], theme) {
        Some(i)
    } else {
        theme_from(themes, theme, i + 1)
    }
}

/// The place of a theme among the choices, or the first place.
pub fn theme_index(themes: &Vec<String>, theme: &str) -> (r: usize)
    ensures
        r == (match theme_from(views(themes@), theme@, 0) {
            Some(i) => i,
            None => 0,
        }),
{
    let ghost ts = views(themes@);
    let n: usize = themes.len();
    let mut i: usize = 0;
    while i < n
        invariant
            i <= n,
            n == themes@.len(),
            ts == views(themes@),
            theme_from(ts, theme@, 0) == theme_from(ts, theme@, i as int),
        decreases n - i,
    {
        assert(ts[i as int] == themes@[i as int]@);
        if begins_with(themes[i].as_str(), theme) {
            return i;
        }
        i += 1;
    }
    0
}

/// What the wizard asked for.
#[derive(Debug)]
pub struct Answers {
    pub music_dir: String,
    pub data_dir: String,
    pub inbox_dirs: Vec<String>,
    pub name_script: NameScriptPreference,
    pub cover_art_size: CoverArtSize,
    pub theme: String,
}

/// The configuration after the wizard: what it asked for is answered, and
/// everything else stays as it was.
pub fn with_answers(current: Settings, a: Answers) -> (r: Settings)
    ensures
        r.library.music_dir == a.music_dir,
        r.library.data_dir == a.data_dir,
        r.library.inbox_dirs == a.inbox_dirs,
        r.musicbrainz.name_script == a.name_script,
        r.musicbrainz.cover_art_size == a.cover_art_size,
        r.ui.theme == a.theme,
        r.library.path_template == current.library.path_template,
        r.library.path_template_single_disc == current.library.path_template_single_disc,
        r.library.collection_path_template == current.library.collection_path_template,
        r.library.loose_path_template == current.library.loose_path_template,
        r.import == current.import,
        r.tagging == current.tagging,
        r.musicbrainz.rate_limit_ms == current.musicbrainz.rate_limit_ms,
        r.player == current.player,
        r.ui.show_cover_preview == current.ui.show_cover_preview,
{
    let mut next = current;
    next.library.music_dir = a.music_dir;
    next.library.data_dir = a.data_dir;
    next.library.inbox_dirs = a.inbox_dirs;
    next.musicbrainz.name_script = a.name_script;
    next.musicbrainz.cover_art_size = a.cover_art_size;
    next.ui.theme = a.theme;
    next
}

/// What stands at the top of a configuration file.
pub open spec fn config_heading() -> Seq<char> {
    "# kyoku config.toml\n# Generated by `kyoku setup`. You can edit this file directly.\n#\n# Path templates are used by `kyoku organize`. Available variables include:\n#   {artist}, {album_artist}, {album}, {year}, {track}, {title},\n#   {disc}, {genre}, {label}, {ext}, and for collection templates\n#   {collection} plus {position}.\n#\n# MusicBrainz user-agent is compiled into kyoku; no config key is needed.\n\n"@
}

/// A configuration file with its heading.
pub fn render_config(body: &str) -> (r: String)
    ensures
        r@ == config_heading() + body@,
{
    let mut s = "# kyoku config.toml\n# Generated by `kyoku setup`. You can edit this file directly.\n#\n# Path templates are used by `kyoku organize`. Available variables include:\n#   {artist}, {album_artist}, {album}, {year}, {track}, {title},\n#   {disc}, {genre}, {label}, {ext}, and for collection templates\n#   {collection} plus {position}.\n#\n# MusicBrainz user-agent is compiled into kyoku; no config key is needed.\n\n".to_owned();
    s.append(body);
    s
}

proof fn lemma_nothing_to_replace(env: Environment, s: Seq<char>, i: int)
    requires
        !s.contains('$'),
        0 <= i <= s.len(),
    ensures
        replaced_vars(env, s, i) == Some(s.skip(i)),
    decreases s.len() - i,
{
    if i < s.len() {
        assert(s.contains(s[i]));
        lemma_nothing_to_replace(env, s, i + 1);
        assert(seq![s[i]] + s.skip(i + 1) =~= s.skip(i));
    } else {
        assert(s.skip(i) =~= Seq::<char>::empty());
    }
}

/// A path without variables that does not begin with `~` is kept, in
/// whatever script it is written.
pub proof fn law_plain_paths_are_kept(env: Environment, s: Seq<char>)
    requires
        !s.contains('$'),
        s.len() > 0 ==> s[0] != '~',
    ensures
        expanded_path(env, s) == Some(s),
{
    lemma_nothing_to_replace(env, s, 0);
    assert(s.skip(0) =~= s);
    reveal_strlit("~");
    reveal_strlit("~/");
    if begins(s, "~/"@) {
        assert("~/"@[0] == '~');
        assert(s.take(2)[0] == s[0]);
    }
}


/// A variable that is set stands for its value. Without it the home directory
/// and the places below it are known.
pub proof fn law_set_variables_come_first(env: Environment, name: Seq<char>, k: int)
    requires
        0 <= k < env.vars@.len(),
        env.vars@[k].0@ == name,
        env.vars@[k].1@.len() > 0,
        forall|j: int| 0 <= j < k ==> (#[trigger] env.vars@[j]).0@ != name,
    ensures
        meaning(env, name) == Some(env.vars@[k].1@),
{
    lemma_var_at(env.vars@, name, k);
}

proof fn lemma_var_at(vars: Seq<(String, String)>, name: Seq<char>, k: int)
    requires
        0 <= k < vars.len(),
        vars[k].0@ == name,
        vars[k].1@.len() > 0,
        forall|j: int| 0 <= j < k ==> (#[trigger] vars[j]).0@ != name,
    ensures
        var_of(vars, name) == Some(vars[k].1@),
    decreases vars.len(),
{
    if k > 0 {
        let rest = vars.skip(1);
        assert(vars[0].0@ != name);
        assert(rest[k - 1] == vars[k]);
        assert forall|j: int| 0 <= j < k - 1 implies (#[trigger] rest[j]).0@ != name by {
            assert(rest[j] == vars[j + 1]);
        }
        lemma_var_at(rest, name, k - 1);
    }
}

proof fn lemma_brace_at(s: Seq<char>, i: int, e: int)
    requires
        0 <= i <= e < s.len(),
        s[e] == '}',
        forall|k: int| i <= k < e ==> s[k] != '}',
    ensures
        brace_from(s, i) == Some(e),
    decreases e - i,
{
    if i < e {
        lemma_brace_at(s, i + 1, e);
    }
}

proof fn lemma_name_to(s: Seq<char>, i: int, e: int)
    requires
        0 <= i <= e <= s.len(),
        forall|k: int| i <= k < e ==> is_name_char(#[trigger] s[k]),
        e < s.len() ==> !is_name_char(s[e]),
    ensures
        name_end(s, i) == e,
    decreases e - i,
{
    if i < e {
        assert(is_name_char(s[i]));
        lemma_name_to(s, i + 1, e);
    }
}

/// A variable is replaced by what it stands for, with braces around its name
/// or without; a path with an unknown one has no meaning. What follows stays.
pub proof fn law_variables_are_replaced(env: Environment, name: Seq<char>, rest: Seq<char>)
    requires
        name.len() > 0,
        forall|i: int|
            0 <= i < name.len() ==> is_ascii_alnum(#[trigger] name[i]) || name[i] == '_',
        !rest.contains('$'),
        rest.len() > 0 ==> rest[0] == '/',
    ensures
        meaning(env, name) is Some ==> replaced_vars(env, seq!['$'] + name + rest, 0) == Some(
            meaning(env, name)->0 + rest,
        ) && replaced_vars(env, seq!['$', '{'] + name + seq!['}'] + rest, 0) == Some(
            meaning(env, name)->0 + rest,
        ),
        meaning(env, name) is None ==> replaced_vars(env, seq!['$'] + name + rest, 0) is None
            && replaced_vars(env, seq!['$', '{'] + name + seq!['}'] + rest, 0) is None,
{
    let n = name.len() as int;
    let a = seq!['$'] + name + rest;
    assert forall|k: int| 1 <= k < 1 + n implies is_name_char(#[trigger] a[k]) by {
        assert(a[k] == name[k - 1]);
    }
    if 1 + n < a.len() {
        assert(a[1 + n] == rest[0]);
    }
    lemma_name_to(a, 1, 1 + n);
    assert(a[1] == name[0]);
    assert(a.subrange(1, 1 + n) =~= name);
    lemma_no_variables(env, a, 1 + n);
    assert(a.skip(1 + n) =~= rest);
    let b = seq!['$', '{'] + name + seq!['}'] + rest;
    assert forall|k: int| 2 <= k < 2 + n implies b[k] != '}' by {
        assert(b[k] == name[k - 2]);
    }
    lemma_brace_at(b, 2, 2 + n);
    assert(b.subrange(2, 2 + n) =~= name);
    lemma_no_variables(env, b, 3 + n);
    assert(b.skip(3 + n) =~= rest);
}

proof fn lemma_no_variables(env: Environment, s: Seq<char>, i: int)
    requires
        0 <= i <= s.len(),
        !s.skip(i).contains('$'),
    ensures
        replaced_vars(env, s, i) == Some(s.skip(i)),
    decreases s.len() - i,
{
    if i < s.len() {
        assert(s.skip(i)[0] == s[i]);
        assert(s.skip(i).contains(s[i]));
        assert(!s.skip(i + 1).contains('$')) by {
            if s.skip(i + 1).contains('$') {
                let k = s.skip(i + 1).index_of('$');
                assert(s.skip(i)[k + 1] == '$');
            }
        }
        lemma_no_variables(env, s, i + 1);
        assert(seq![s[i]] + s.skip(i + 1) =~= s.skip(i));
    } else {
        assert(s.skip(i) =~= Seq::<char>::empty());
    }
}

/// A path below `~` is one below the home directory.
pub proof fn law_tilde_is_the_home_directory(env: Environment, rest: Seq<char>)
    requires
        !rest.contains('$'),
    ensures
        expanded_path(env, seq!['~', '/'] + rest) == (match env.home {
            Some(home) => Some(joined(home@, rest)),
            None => None,
        }),
        expanded_path(env, seq!['~']) == opt_view(env.home),
{
    let s = seq!['~', '/'] + rest;
    assert(!s.contains('$')) by {
        if s.contains('$') {
            let k = s.index_of('$');
            assert(rest[k - 2] == '$');
        }
    }
    lemma_nothing_to_replace(env, s, 0);
    assert(s.skip(0) =~= s);
    assert(s.skip(2) =~= rest);
    reveal_strlit("~");
    reveal_strlit("~/");
    assert("~/"@ =~= seq!['~', '/']);
    assert(s.take(2) =~= "~/"@);
    assert(s.len() != "~"@.len());
    let t = seq!['~'];
    assert(t =~= "~"@);
    lemma_nothing_to_replace(env, t, 0);
    assert(t.skip(0) =~= t);
}

/// A heading opens its section and ends the one before it; only that of the
/// transfers, in whatever case, is looked into. It sets no folder itself.
pub proof fn law_headings_open_their_section(
    env: Environment,
    lines: Seq<Seq<char>>,
    name: Seq<char>,
)
    ensures
        in_transfers(lines.push(seq!['['] + name + seq![']'])) <==> ascii_lowered(name)
            == ascii_lowered("transfers"@),
        folders_in(env, lines.push(seq!['['] + name + seq![']'])) == folders_in(env, lines),
{
    let h = seq!['['] + name + seq![']'];
    let none = Seq::<char>::empty();
    assert(none + h + none =~= h);
    assert(h[0] == '[' && h.last() == ']');
    crate::text::law_trimming_takes_the_space_around(none, h, none);
    assert(lines.push(h).drop_last() =~= lines);
    assert(lines.push(h).last() == h);
    assert(h.subrange(1, h.len() - 1) =~= name);
}

proof fn lemma_equals_at(line: Seq<char>, i: int, e: int)
    requires
        0 <= i <= e < line.len(),
        line[e] == '=',
        forall|k: int| i <= k < e ==> line[k] != '=',
    ensures
        equals_at(line, i) == Some(e),
    decreases e - i,
{
    if i < e {
        lemma_equals_at(line, i + 1, e);
    }
}

/// In the section of the transfers the folder stands behind its name and an
/// equals sign; elsewhere it is not looked for.
pub proof fn law_the_download_folder_is_read(
    env: Environment,
    lines: Seq<Seq<char>>,
    path: Seq<char>,
)
    requires
        path.len() > 0,
        path[0] == '/',
        !path.contains('$'),
        !crate::text::is_space(path.last()),
        path.last() != ']' && path.last() != '"' && path.last() != '\'',
    ensures
        ({
            let now = folders_in(env, lines.push("downloaddir"@ + seq![' ', '=', ' '] + path));
            if in_transfers(lines) {
                now == folders_in(env, lines).push(path)
            } else {
                now == folders_in(env, lines)
            }
        }),
{
    let key = "downloaddir"@;
    assert(key.len() == 11 && key[0] == 'd' && key[10] == 'r' && !key.contains('=')) by {
        reveal_strlit("downloaddir");
    }
    let line = key + seq![' ', '=', ' '] + path;
    let none = Seq::<char>::empty();
    let one = seq![' '];
    assert(none + line + none =~= line);
    assert(line[0] == 'd');
    assert(line.last() == path.last());
    crate::text::law_trimming_takes_the_space_around(none, line, none);
    assert(lines.push(line).drop_last() =~= lines);
    assert(lines.push(line).last() == line);
    assert forall|k: int| 0 <= k < 12 implies line[k] != '=' by {
        if k < 11 {
            assert(line[k] == key[k]);
            assert(key.contains(key[k]));
        }
    }
    assert(line[12] == '=');
    lemma_equals_at(line, 0, 12);
    assert(line.take(12) =~= none + key + one);
    crate::text::law_trimming_takes_the_space_around(none, key, one);
    assert(line.skip(13) =~= one + path + none);
    crate::text::law_trimming_takes_the_space_around(one, path, none);
    let q = |c: char| is_quote(c);
    assert(!q(path[0]));
    assert(trim_front(path, q) == path);
    assert(!q(path.last()));
    assert(trim_back(path, q) == path);
    assert(unquoted(line.skip(13)) == path);
    law_plain_paths_are_kept(env, path);
    assert(section_of(line) is None);
}


/// The first theme that begins like the one that is set is chosen.
pub proof fn law_the_first_theme_that_fits_is_chosen(
    themes: Seq<Seq<char>>,
    theme: Seq<char>,
    i: int,
    k: int,
)
    requires
        0 <= i <= k <= themes.len(),
        forall|j: int| i <= j < k ==> !begins(#[trigger] themes[j], theme),
        k < themes.len() ==> begins(themes[k], theme),
    ensures
        k < themes.len() ==> theme_from(themes, theme, i) == Some(k),
        k == themes.len() ==> theme_from(themes, theme, i) is None,
    decreases k - i,
{
    if i < k {
        assert(!begins(themes[i], theme));
        law_the_first_theme_that_fits_is_chosen(themes, theme, i + 1, k);
    }
}

/// The configuration of the other program is looked for in the directory for
/// configurations first, and then below the home directory; one place is not
/// looked at twice.
pub proof fn law_the_configuration_directory_comes_first(dir: Seq<char>, home: Seq<char>)
    ensures
        ({
            let a = joined(joined(dir, "nicotine"@), "config"@);
            let b = joined(joined(joined(home, ".config"@), "nicotine"@), "config"@);
            &&& nicotine_places(Some(dir), None) == seq![a]
            &&& nicotine_places(None, Some(home)) == seq![b]
            &&& crate::paths::comps(a) != crate::paths::comps(b) ==> nicotine_places(
                Some(dir),
                Some(home),
            ) == seq![a, b]
            &&& crate::paths::comps(a) == crate::paths::comps(b) ==> nicotine_places(
                Some(dir),
                Some(home),
            ) == seq![a]
        }),
        nicotine_places(None, None).len() == 0,
{
    let a = joined(joined(dir, "nicotine"@), "config"@);
    let b = joined(joined(joined(home, ".config"@), "nicotine"@), "config"@);
    assert(Seq::<Seq<char>>::empty().push(b) =~= seq![b]);
    assert(seq![a].push(b) =~= seq![a, b]);
}

} // verus!
