//! Organizing: where every track's file belongs, and which files have to
//! move or be copied to get there.
use crate::paths::{
    extension, file_name, file_stem, join, names_path, parent, same_path,
};
use crate::rows::{copy_text, OrganizeCollectionMembership, OrganizeTrackRow, OrphanFileRow};
use crate::settings::LibrarySettings;
use crate::template::{render_path, TemplateVars};
use crate::text::{ascii_lower_text, number_text, same, signed_text, to_lower, trim};
use vstd::prelude::*;

verus! {

/// A file that moves to its place in the library.
#[derive(Debug, Clone)]
pub struct FileMove {
    pub track_id: i64,
    pub from: String,
    pub to: String,
    /// The collection, by id and name, whose folder the file moves to.
    pub also_collection: Option<(i64, String)>,
}

/// A copy of a track for a collection.
#[derive(Debug, Clone)]
pub struct FileCopy {
    pub track_id: i64,
    pub collection_id: i64,
    pub collection_name: String,
    pub from: String,
    pub to: String,
}

/// A collection copy that is on disk but not recorded.
#[derive(Debug, Clone)]
pub struct CollectionCopyBackfill {
    pub track_id: i64,
    pub collection_id: i64,
    pub path: String,
}

/// A cover image that follows its album.
#[derive(Debug, Clone)]
pub struct CoverMove {
    pub album_id: i64,
    pub from: String,
    pub to: String,
}

/// A file on disk whose track row is gone.
#[derive(Debug, Clone)]
pub struct FileOrphanEntry {
    pub id: i64,
    pub path: String,
    pub title: Option<String>,
    pub artist: Option<String>,
    pub album_title: Option<String>,
    pub reason: String,
}

/// What organizing is going to do.
#[derive(Debug)]
pub struct OrganizePlan {
    pub moves: Vec<FileMove>,
    pub copies: Vec<FileCopy>,
    pub copy_backfills: Vec<CollectionCopyBackfill>,
    pub cover_moves: Vec<CoverMove>,
    /// How many files and copies are in place already.
    pub skipped: usize,
    /// Tracks whose source file is not on disk: id, path and title.
    pub missing_sources: Vec<(i64, String, String)>,
    /// Files on disk whose track row is gone.
    pub file_orphans: Vec<FileOrphanEntry>,
    /// Set when so many sources are missing that the volume is more likely
    /// unavailable than the files are gone. Their rows are then kept.
    pub prune_blocked_reason: Option<String>,
}

impl Default for OrganizePlan {
    fn default() -> (r: Self)
        ensures
            r.moves@.len() == 0,
            r.copies@.len() == 0,
            r.copy_backfills@.len() == 0,
            r.cover_moves@.len() == 0,
            r.skipped == 0,
            r.missing_sources@.len() == 0,
            r.file_orphans@.len() == 0,
            r.prune_blocked_reason is None,
    {
        OrganizePlan {
            moves: Vec::new(),
            copies: Vec::new(),
            copy_backfills: Vec::new(),
            cover_moves: Vec::new(),
            skipped: 0,
            missing_sources: Vec::new(),
            file_orphans: Vec::new(),
            prune_blocked_reason: None,
        }
    }
}

/// Which tracks are organized.
#[derive(Debug, Clone)]
pub enum OrganizeFilter {
    All,
    Artist(String),
    Album(String),
    AlbumId(i64),
    Loose,
    Path(String),
    Collection(String),
}

/// What is known of one path on disk.
#[derive(Debug, Clone)]
pub struct Probe {
    pub path: String,
    pub exists: bool,
    /// The path with every link and spelling resolved.
    pub resolved: Option<String>,
}

/// The first answer about a path, if it was probed.
pub open spec fn answer(disk: Seq<Probe>, p: Seq<char>) -> Option<Probe>
    decreases disk.len(),
{
    if disk.len() == 0 {
        None
    } else if disk[0].path@ == p {
        Some(disk[0])
    } else {
        answer(disk.skip(1), p)
    }
}

/// Whether a path exists. Here and below, an error is the first path that
/// has to be known and was not probed.
pub open spec fn exists_on(disk: Seq<Probe>, p: Seq<char>) -> Result<bool, Seq<char>> {
    match answer(disk, p) {
        Some(a) => Ok(a.exists),
        None => Err(p),
    }
}

/// Whether two paths are one file.
pub open spec fn one_file(disk: Seq<Probe>, a: Seq<char>, b: Seq<char>) -> Result<bool, Seq<char>> {
    match (answer(disk, a), answer(disk, b)) {
        (Some(x), Some(y)) => Ok(
            x.resolved is Some && y.resolved is Some && crate::paths::comps((x.resolved->0)@)
                == crate::paths::comps((y.resolved->0)@),
        ),
        (None, _) => Err(a),
        (Some(_), None) => Err(b),
    }
}

/// A result whose error is taken by its characters.
pub open spec fn told<T>(r: Result<T, String>) -> Result<T, Seq<char>> {
    match r {
        Ok(v) => Ok(v),
        Err(q) => Err(q@),
    }
}

/// The position of the first answer about a path.
fn find_probe(disk: &Vec<Probe>, p: &str) -> (r: Option<usize>)
    ensures
        match r {
            Some(i) => i < disk@.len() && answer(disk@, p@) == Some(disk@[i as int]),
            None => answer(disk@, p@) is None,
        },
{
    let mut i: usize = 0;
    assert(disk@.skip(0) =~= disk@);
    while i < disk.len()
        invariant
            i <= disk@.len(),
            answer(disk@, p@) == answer(disk@.skip(i as int), p@),
        decreases disk@.len() - i,
    {
        assert(disk@.skip(i as int)[0] == disk@[i as int]);
        if same(disk[i].path.as_str(), p) {
            return Some(i);
        }
        assert(disk@.skip(i as int).skip(1) =~= disk@.skip(i + 1));
        i += 1;
    }
    None
}

/// Whether a path exists; the path itself where it was not probed.
fn on_disk(disk: &Vec<Probe>, p: &str) -> (r: Result<bool, String>)
    ensures
        told(r) == exists_on(disk@, p@),
{
    match find_probe(disk, p) {
        Some(i) => Ok(disk[i].exists),
        None => Err(p.to_owned()),
    }
}

/// Whether two paths are one file; the first path that was not probed, else.
fn is_one_file(disk: &Vec<Probe>, a: &str, b: &str) -> (r: Result<bool, String>)
    ensures
        told(r) == one_file(disk@, a@, b@),
{
    let i = match find_probe(disk, a) {
        Some(i) => i,
        None => return Err(a.to_owned()),
    };
    let j = match find_probe(disk, b) {
        Some(j) => j,
        None => return Err(b.to_owned()),
    };
    match (&disk[i].resolved, &disk[j].resolved) {
        (Some(x), Some(y)) => Ok(same_path(x.as_str(), y.as_str())),
        _ => Ok(false),
    }
}

// ---------------------------------------------------------------------------
// Where a track belongs

/// The text, or nothing.
pub open spec fn or_empty(o: Option<String>) -> Seq<char> {
    match o {
        Some(s) => s@,
        None => Seq::empty(),
    }
}

/// The variables that a track gives its templates.
pub open spec fn vars_of(t: OrganizeTrackRow) -> crate::template::Vars {
    crate::template::Vars {
        artist: or_empty(t.artist),
        album_artist: or_empty(t.album_artist),
        album: or_empty(t.album_title),
        year: match t.year {
            Some(y) => crate::text::signed_decimal(y as int),
            None => Seq::empty(),
        },
        title: t.title@,
        track: match t.track_number {
            Some(n) => n,
            None => 0,
        },
        disc: t.disc_number,
        genre: or_empty(t.genre),
        ext: crate::text::lowercased(
            match crate::paths::ext_of_path(t.file_path@) {
                Some(e) => e,
                None => "mp3"@,
            },
        ),
        label: or_empty(t.label),
        collection: Seq::empty(),
        position: 0,
    }
}

/// Whether a track has neither number nor artist, so that a rendered name
/// would say nothing.
pub open spec fn starved(t: OrganizeTrackRow) -> bool {
    &&& t.track_number is None || t.track_number == Some(0u32)
    &&& crate::text::trimmed(or_empty(t.artist)).len() == 0
    &&& crate::text::trimmed(or_empty(t.album_artist)).len() == 0
}

/// The target, under the original file name where the track is starved.
pub open spec fn keep_name(t: OrganizeTrackRow, target: Seq<char>) -> Seq<char> {
    if !starved(t) {
        target
    } else {
        match (crate::paths::parent_of(target), crate::paths::name_of_path(t.file_path@)) {
            (Some(dir), Some(name)) => crate::paths::joined(dir, name),
            _ => target,
        }
    }
}

/// The place of a rendered template below the music directory.
pub open spec fn home(
    lib: LibrarySettings,
    t: OrganizeTrackRow,
    template: Seq<char>,
    v: crate::template::Vars,
) -> Seq<char> {
    keep_name(t, crate::paths::joined(lib.music_dir@, crate::template::rendered(template, v)))
}

/// Where the copy of a track for a collection belongs.
#[verifier::opaque]
pub open spec fn collection_home(
    lib: LibrarySettings,
    t: OrganizeTrackRow,
    c: OrganizeCollectionMembership,
) -> Seq<char> {
    home(
        lib,
        t,
        match c.path_template {
            Some(tmpl) => tmpl@,
            None => lib.collection_path_template@,
        },
        crate::template::Vars {
            collection: c.name@,
            position: c.effective_position,
            ..vars_of(t)
        },
    )
}

/// Memberships ordered by collection id, with one more put in its place.
pub open spec fn insert_by_id(
    s: Seq<OrganizeCollectionMembership>,
    m: OrganizeCollectionMembership,
) -> Seq<OrganizeCollectionMembership>
    decreases s.len(),
{
    if s.len() == 0 || s.last().id <= m.id {
        s.push(m)
    } else {
        insert_by_id(s.drop_last(), m).push(s.last())
    }
}

/// Memberships ordered by collection id, so that the oldest collection comes
/// first.
pub open spec fn by_id(s: Seq<OrganizeCollectionMembership>) -> Seq<OrganizeCollectionMembership>
    decreases s.len(),
{
    if s.len() == 0 {
        s
    } else {
        insert_by_id(by_id(s.drop_last()), s.last())
    }
}

/// Where a track's own file belongs: in its album; without album, in its
/// first collection; else with the loose tracks.
#[verifier::opaque]
pub open spec fn primary_home(lib: LibrarySettings, t: OrganizeTrackRow) -> Seq<char> {
    if t.album_title is Some {
        if t.disc_total is None || t.disc_total->0 <= 1 {
            home(lib, t, lib.path_template_single_disc@, vars_of(t))
        } else {
            home(lib, t, lib.path_template@, vars_of(t))
        }
    } else if t.collections@.len() > 0 {
        collection_home(lib, t, by_id(t.collections@)[0])
    } else {
        home(lib, t, lib.loose_path_template@, vars_of(t))
    }
}

/// What the templates need to know of one track.
pub struct TrackTargets {
    from: String,
    has_album: bool,
    single_disc: bool,
    metadata_starved: bool,
    vars: TemplateVars,
    collections: Vec<OrganizeCollectionMembership>,
}

impl TrackTargets {
    /// Whether this was made from the track `t`.
    pub closed spec fn of(&self, t: OrganizeTrackRow) -> bool {
        &&& self.from@ == t.file_path@
        &&& self.has_album == (t.album_title is Some)
        &&& self.single_disc == (t.disc_total is None || t.disc_total->0 <= 1)
        &&& self.metadata_starved == starved(t)
        &&& self.vars@ == vars_of(t)
        &&& self.collections@ == by_id(t.collections@)
    }
}

fn text_or_empty(o: &Option<String>) -> (r: String)
    ensures
        r@ == or_empty(*o),
{
    match o {
        Some(s) => s.clone(),
        None => String::new(),
    }
}

proof fn lemma_insert_by_id(
    s: Seq<OrganizeCollectionMembership>,
    m: OrganizeCollectionMembership,
    at: int,
)
    requires
        0 <= at <= s.len(),
        forall|k: int| at <= k < s.len() ==> (#[trigger] s[k]).id > m.id,
        at > 0 ==> s[at - 1].id <= m.id,
    ensures
        insert_by_id(s, m) == s.insert(at, m),
    decreases s.len(),
{
    if at < s.len() {
        assert(s.last() == s[s.len() - 1]);
        lemma_insert_by_id(s.drop_last(), m, at);
        assert(s.drop_last().insert(at, m).push(s.last()) =~= s.insert(at, m));
    } else {
        assert(s.push(m) =~= s.insert(at, m));
    }
}

/// The memberships ordered by collection id.
pub(crate) fn order_by_id(v: &Vec<OrganizeCollectionMembership>) -> (r: Vec<OrganizeCollectionMembership>)
    ensures
        r@ == by_id(v@),
{
    let mut out: Vec<OrganizeCollectionMembership> = Vec::new();
    let mut i: usize = 0;
    while i < v.len()
        invariant
            i <= v@.len(),
            out@ == by_id(v@.take(i as int)),
        decreases v@.len() - i,
    {
        let mut at: usize = out.len();
        while at > 0 && out[at - 1].id > v[i].id
            invariant
                i < v@.len(),
                at <= out@.len(),
                forall|k: int| at <= k < out@.len() ==> (#[trigger] out@[k]).id > v@[i as int].id,
            decreases at,
        {
            at -= 1;
        }
        proof {
            lemma_insert_by_id(out@, v@[i as int], at as int);
            assert(v@.take(i + 1).drop_last() =~= v@.take(i as int));
        }
        let m = v[i].clone();
        out.insert(at, m);
        i += 1;
    }
    assert(v@.take(v@.len() as int) =~= v@);
    out
}

proof fn lemma_by_id_len(s: Seq<OrganizeCollectionMembership>)
    ensures
        by_id(s).len() == s.len(),
    decreases s.len(),
{
    if s.len() > 0 {
        lemma_by_id_len(s.drop_last());
        lemma_insert_len(by_id(s.drop_last()), s.last());
    }
}

proof fn lemma_insert_len(s: Seq<OrganizeCollectionMembership>, m: OrganizeCollectionMembership)
    ensures
        insert_by_id(s, m).len() == s.len() + 1,
    decreases s.len(),
{
    if s.len() > 0 && s.last().id > m.id {
        lemma_insert_len(s.drop_last(), m);
    }
}

impl TrackTargets {
    /// What the templates need to know of the track `t`.
    pub fn new(t: &OrganizeTrackRow) -> (r: Self)
        ensures
            r.of(*t),
    {
        let ext = match extension(t.file_path.as_str()) {
            Some(e) => e,
            None => "mp3".to_owned(),
        };
        let track: u32 = match t.track_number {
            Some(n) => n,
            None => 0,
        };
        let artist = text_or_empty(&t.artist);
        let album_artist = text_or_empty(&t.album_artist);
        let metadata_starved = track == 0 && trim(artist.as_str()).as_str().is_empty() && trim(
            album_artist.as_str(),
        ).as_str().is_empty();
        let vars = TemplateVars {
            artist,
            album_artist,
            album: text_or_empty(&t.album_title),
            year: match t.year {
                Some(y) => signed_text(y as i64),
                None => String::new(),
            },
            title: t.title.clone(),
            track,
            disc: t.disc_number,
            genre: text_or_empty(&t.genre),
            ext: to_lower(ext.as_str()),
            label: text_or_empty(&t.label),
            collection: String::new(),
            position: 0,
        };
        let single_disc = match t.disc_total {
            Some(n) => n <= 1,
            None => true,
        };
        assert(vars@ =~= vars_of(*t));
        TrackTargets {
            from: t.file_path.clone(),
            has_album: t.album_title.is_some(),
            single_disc,
            metadata_starved,
            vars,
            collections: order_by_id(&t.collections),
        }
    }

    /// The target, under the original file name where the track is starved.
    fn preserve_filename(&self, target: String, Ghost(t): Ghost<OrganizeTrackRow>) -> (r: String)
        requires
            self.of(t),
        ensures
            r@ == keep_name(t, target@),
    {
        if !self.metadata_starved {
            return target;
        }
        match (parent(target.as_str()), file_name(self.from.as_str())) {
            (Some(dir), Some(name)) => join(dir.as_str(), name.as_str()),
            _ => target,
        }
    }

    /// Where the copy for one collection belongs.
    pub(crate) fn collection_target(
        &self,
        c: &OrganizeCollectionMembership,
        lib: &LibrarySettings,
        Ghost(t): Ghost<OrganizeTrackRow>,
    ) -> (r: String)
        requires
            self.of(t),
        ensures
            r@ == collection_home(*lib, t, *c),
    {
        proof {
            reveal(collection_home);
        }
        let tmpl: &str = match &c.path_template {
            Some(own) => own.as_str(),
            None => lib.collection_path_template.as_str(),
        };
        let v = &self.vars;
        let coll_vars = TemplateVars {
            artist: v.artist.clone(),
            album_artist: v.album_artist.clone(),
            album: v.album.clone(),
            year: v.year.clone(),
            title: v.title.clone(),
            track: v.track,
            disc: v.disc,
            genre: v.genre.clone(),
            ext: v.ext.clone(),
            label: v.label.clone(),
            collection: c.name.clone(),
            position: c.effective_position,
        };
        proof {
            assert(self.vars@ == vars_of(t));
            assert(coll_vars@ =~= crate::template::Vars {
                collection: c.name@,
                position: c.effective_position,
                ..vars_of(t)
            });
        }
        let rel = render_path(tmpl, &coll_vars);
        self.preserve_filename(join(lib.music_dir.as_str(), rel.as_str()), Ghost(t))
    }

    /// Where the track's own file belongs.
    pub(crate) fn primary_target(&self, lib: &LibrarySettings, Ghost(t): Ghost<OrganizeTrackRow>) -> (r: String)
        requires
            self.of(t),
        ensures
            r@ == primary_home(*lib, t),
    {
        proof {
            reveal(primary_home);
        }
        proof {
            lemma_by_id_len(t.collections@);
        }
        if self.has_album {
            let tmpl: &str = if self.single_disc {
                lib.path_template_single_disc.as_str()
            } else {
                lib.path_template.as_str()
            };
            let rel = render_path(tmpl, &self.vars);
            self.preserve_filename(join(lib.music_dir.as_str(), rel.as_str()), Ghost(t))
        } else if self.collections.len() > 0 {
            self.collection_target(&self.collections[0], lib, Ghost(t))
        } else {
            let rel = render_path(lib.loose_path_template.as_str(), &self.vars);
            self.preserve_filename(join(lib.music_dir.as_str(), rel.as_str()), Ghost(t))
        }
    }
}

// ---------------------------------------------------------------------------
// Free places

/// Whether `list` names the path `p`.
pub open spec fn names(list: Seq<Seq<char>>, p: Seq<char>) -> bool {
    exists|i: int| 0 <= i < list.len() && crate::paths::comps(#[trigger] list[i]) == crate::paths::comps(p)
}

/// Whether the file from `from` may go to `p`: nothing else is planned there,
/// and on disk there is nothing, or only a pending orphan, or the file itself
/// under another spelling.
pub open spec fn slot_free(
    disk: Seq<Probe>,
    orphans: Seq<Seq<char>>,
    used: Seq<Seq<char>>,
    p: Seq<char>,
    from: Seq<char>,
) -> Result<bool, Seq<char>> {
    if names(used, p) {
        Ok(false)
    } else {
        match exists_on(disk, p) {
            Err(q) => Err(q),
            Ok(there) => if !there || names(orphans, p) {
                Ok(true)
            } else {
                one_file(disk, p, from)
            },
        }
    }
}

/// The target with a number in front of its extension.
pub open spec fn variant(target: Seq<char>, i: int) -> Seq<char> {
    let stem = match crate::paths::stem_of_path(target) {
        Some(s) => s,
        None => Seq::empty(),
    };
    let numbered = stem + " ("@ + crate::text::decimal(i as nat) + ")"@;
    let name = match crate::paths::ext_of_path(target) {
        Some(e) => if e.len() == 0 { numbered } else { numbered + "."@ + e },
        None => numbered,
    };
    match crate::paths::parent_of(target) {
        Some(dir) => crate::paths::joined(dir, name),
        None => name,
    }
}

/// The first free numbered variant from `i` on, or the target itself where
/// all are taken.
pub open spec fn first_variant(
    disk: Seq<Probe>,
    orphans: Seq<Seq<char>>,
    used: Seq<Seq<char>>,
    from: Seq<char>,
    target: Seq<char>,
    i: int,
) -> Result<Seq<char>, Seq<char>>
    decreases 1000 - i,
{
    if i >= 1000 {
        Ok(target)
    } else {
        match slot_free(disk, orphans, used, variant(target, i), from) {
            Err(q) => Err(q),
            Ok(true) => Ok(variant(target, i)),
            Ok(false) => first_variant(disk, orphans, used, from, target, i + 1),
        }
    }
}

/// Where a file bound for `target` goes: there, or to the first free variant.
#[verifier::opaque]
pub open spec fn place(
    disk: Seq<Probe>,
    orphans: Seq<Seq<char>>,
    used: Seq<Seq<char>>,
    from: Seq<char>,
    target: Seq<char>,
) -> Result<Seq<char>, Seq<char>> {
    match slot_free(disk, orphans, used, target, from) {
        Err(q) => Err(q),
        Ok(true) => Ok(target),
        Ok(false) => first_variant(disk, orphans, used, from, target, 2),
    }
}

proof fn lemma_names(list: Seq<String>, p: Seq<char>)
    ensures
        names(crate::text::views(list), p) == exists|i: int|
            0 <= i < list.len() && crate::paths::comps(#[trigger] list[i]@) == crate::paths::comps(p),
{
    let v = crate::text::views(list);
    if names(v, p) {
        let i = choose|i: int|
            0 <= i < v.len() && crate::paths::comps(#[trigger] v[i]) == crate::paths::comps(p);
        assert(list[i]@ == v[i]);
    }
    if exists|i: int|
        0 <= i < list.len() && crate::paths::comps(#[trigger] list[i]@) == crate::paths::comps(p) {
        let i = choose|i: int|
            0 <= i < list.len() && crate::paths::comps(#[trigger] list[i]@) == crate::paths::comps(p);
        assert(v[i] == list[i]@);
    }
}

/// Whether the list names the path.
fn named(list: &Vec<String>, p: &str) -> (r: bool)
    ensures
        r == names(crate::text::views(list@), p@),
{
    proof {
        lemma_names(list@, p@);
    }
    names_path(list, p)
}

fn is_slot_free(
    disk: &Vec<Probe>,
    orphans: &Vec<String>,
    used: &Vec<String>,
    p: &str,
    from: &str,
) -> (r: Result<bool, String>)
    ensures
        told(r) == slot_free(
            disk@,
            crate::text::views(orphans@),
            crate::text::views(used@),
            p@,
            from@,
        ),
{
    if named(used, p) {
        return Ok(false);
    }
    match on_disk(disk, p) {
        Err(q) => Err(q),
        Ok(there) => if !there || named(orphans, p) {
            Ok(true)
        } else {
            is_one_file(disk, p, from)
        },
    }
}

fn numbered_variant(target: &str, i: usize) -> (r: String)
    ensures
        r@ == variant(target@, i as int),
{
    let stem = match file_stem(target) {
        Some(s) => s,
        None => String::new(),
    };
    let ext = match extension(target) {
        Some(e) => e,
        None => String::new(),
    };
    let mut name = stem;
    let number = number_text(i as u64);
    name.append(" (");
    name.append(number.as_str());
    name.append(")");
    if !ext.as_str().is_empty() {
        name.append(".");
        name.append(ext.as_str());
    }
    match parent(target) {
        Some(dir) => join(dir.as_str(), name.as_str()),
        None => name,
    }
}

/// Where a file bound for `target` goes.
fn disambiguate(
    disk: &Vec<Probe>,
    orphans: &Vec<String>,
    used: &Vec<String>,
    from: &str,
    target: &str,
) -> (r: Result<String, String>)
    ensures
        ({
            let want = place(
                disk@,
                crate::text::views(orphans@),
                crate::text::views(used@),
                from@,
                target@,
            );
            match r {
                Ok(p) => want == Ok::<Seq<char>, Seq<char>>(p@),
                Err(q) => want == Err::<Seq<char>, Seq<char>>(q@),
            }
        }),
{
    proof {
        reveal(place);
    }
    match is_slot_free(disk, orphans, used, target, from) {
        Err(q) => return Err(q),
        Ok(true) => return Ok(target.to_owned()),
        Ok(false) => {},
    }
    let ghost o = crate::text::views(orphans@);
    let ghost u = crate::text::views(used@);
    let mut i: usize = 2;
    while i < 1000
        invariant
            2 <= i <= 1000,
            o == crate::text::views(orphans@),
            u == crate::text::views(used@),
            place(disk@, o, u, from@, target@) == first_variant(
                disk@,
                o,
                u,
                from@,
                target@,
                i as int,
            ),
        decreases 1000 - i,
    {
        let candidate = numbered_variant(target, i);
        match is_slot_free(disk, orphans, used, candidate.as_str(), from) {
            Err(q) => return Err(q),
            Ok(true) => return Ok(candidate),
            Ok(false) => {},
        }
        i += 1;
    }
    Ok(target.to_owned())
}

// ---------------------------------------------------------------------------
// The plan, track by track

/// A move as mathematical values.
#[verifier::ext_equal]
pub struct MoveView {
    pub track_id: i64,
    pub from: Seq<char>,
    pub to: Seq<char>,
    pub also_collection: Option<(i64, Seq<char>)>,
}

/// A copy as mathematical values.
#[verifier::ext_equal]
pub struct CopyView {
    pub track_id: i64,
    pub collection_id: i64,
    pub collection_name: Seq<char>,
    pub from: Seq<char>,
    pub to: Seq<char>,
}

impl View for FileMove {
    type V = MoveView;

    open spec fn view(&self) -> MoveView {
        MoveView {
            track_id: self.track_id,
            from: self.from@,
            to: self.to@,
            also_collection: match self.also_collection {
                Some((id, name)) => Some((id, name@)),
                None => None,
            },
        }
    }
}

impl View for FileCopy {
    type V = CopyView;

    open spec fn view(&self) -> CopyView {
        CopyView {
            track_id: self.track_id,
            collection_id: self.collection_id,
            collection_name: self.collection_name@,
            from: self.from@,
            to: self.to@,
        }
    }
}

/// The moves of a plan as mathematical values.
pub open spec fn move_views(v: Seq<FileMove>) -> Seq<MoveView> {
    v.map_values(|m: FileMove| m@)
}

/// The copies of a plan as mathematical values.
pub open spec fn copy_views(v: Seq<FileCopy>) -> Seq<CopyView> {
    v.map_values(|c: FileCopy| c@)
}

/// Track, collection and path of each backfill.
pub open spec fn backfill_views(v: Seq<CollectionCopyBackfill>) -> Seq<(i64, i64, Seq<char>)> {
    v.map_values(|b: CollectionCopyBackfill| (b.track_id, b.collection_id, b.path@))
}

/// Album, source and destination of each cover move.
pub open spec fn cover_views(v: Seq<CoverMove>) -> Seq<(i64, Seq<char>, Seq<char>)> {
    v.map_values(|c: CoverMove| (c.album_id, c.from@, c.to@))
}

/// Track, path and title of each missing source.
pub open spec fn missing_views(v: Seq<(i64, String, String)>) -> Seq<(i64, Seq<char>, Seq<char>)> {
    v.map_values(|m: (i64, String, String)| (m.0, m.1@, m.2@))
}

/// Number and path of each pair.
pub open spec fn pair_views(v: Seq<(i64, String)>) -> Seq<(i64, Seq<char>)> {
    v.map_values(|m: (i64, String)| (m.0, m.1@))
}

/// What has been planned so far.
#[verifier::ext_equal]
pub struct Work {
    /// Every path that is taken.
    pub used: Seq<Seq<char>>,
    pub moves: Seq<MoveView>,
    pub copies: Seq<CopyView>,
    pub backfills: Seq<(i64, i64, Seq<char>)>,
    pub skipped: usize,
    pub missing: Seq<(i64, Seq<char>, Seq<char>)>,
    /// The directory of each album, by ascending album id.
    pub albums: Seq<(i64, Seq<char>)>,
}

/// One more; a count at the end of its range stays there.
pub open spec fn bump(n: usize) -> usize {
    if n < usize::MAX { (n + 1) as usize } else { n }
}

/// The albums with the directory of one more; the first directory recorded
/// for an album stays.
pub open spec fn with_album(albums: Seq<(i64, Seq<char>)>, id: i64, dir: Seq<char>) -> Seq<
    (i64, Seq<char>),
>
    decreases albums.len(),
{
    if albums.len() == 0 || albums.last().0 < id {
        albums.push((id, dir))
    } else if albums.last().0 == id {
        albums
    } else {
        with_album(albums.drop_last(), id, dir).push(albums.last())
    }
}

/// Plans the copy of one track for one collection.
#[verifier::opaque]
pub open spec fn copy_step(
    disk: Seq<Probe>,
    lib: LibrarySettings,
    orphans: Seq<Seq<char>>,
    t: OrganizeTrackRow,
    source: Seq<char>,
    c: OrganizeCollectionMembership,
    w: Work,
) -> Result<Work, Seq<char>> {
    let raw = collection_home(lib, t, c);
    match exists_on(disk, raw) {
        Err(q) => Err(q),
        Ok(true) => Ok(
            Work {
                backfills: if crate::text::opt_view(c.collection_file_path) == Some(raw) {
                    w.backfills
                } else {
                    w.backfills.push((t.id, c.id, raw))
                },
                used: w.used.push(raw),
                skipped: bump(w.skipped),
                ..w
            },
        ),
        Ok(false) => match place(disk, orphans, w.used, source, raw) {
            Err(q) => Err(q),
            Ok(to) => Ok(
                Work {
                    copies: w.copies.push(
                        CopyView {
                            track_id: t.id,
                            collection_id: c.id,
                            collection_name: c.name@,
                            from: source,
                            to,
                        },
                    ),
                    used: w.used.push(to),
                    ..w
                },
            ),
        },
    }
}

/// Plans the copies of one track for the collections from `i` on.
pub open spec fn copy_steps(
    disk: Seq<Probe>,
    lib: LibrarySettings,
    orphans: Seq<Seq<char>>,
    t: OrganizeTrackRow,
    source: Seq<char>,
    cs: Seq<OrganizeCollectionMembership>,
    i: int,
    w: Work,
) -> Result<Work, Seq<char>>
    decreases cs.len() - i,
{
    if i < 0 || i >= cs.len() {
        Ok(w)
    } else {
        match copy_step(disk, lib, orphans, t, source, cs[i], w) {
            Err(q) => Err(q),
            Ok(next) => copy_steps(disk, lib, orphans, t, source, cs, i + 1, next),
        }
    }
}

/// The collection whose folder a track's own file moves to.
pub open spec fn also(t: OrganizeTrackRow) -> Option<(i64, Seq<char>)> {
    if t.album_title is None && t.collections@.len() > 0 {
        let first = by_id(t.collections@)[0];
        Some((first.id, first.name@))
    } else {
        None
    }
}

/// Plans the file of a track that is on disk, and says where it will be.
#[verifier::opaque]
pub open spec fn move_step(
    disk: Seq<Probe>,
    lib: LibrarySettings,
    orphans: Seq<Seq<char>>,
    t: OrganizeTrackRow,
    w: Work,
) -> Result<(Work, Seq<char>), Seq<char>> {
    let from = t.file_path@;
    let goal = primary_home(lib, t);
    if crate::paths::comps(from) == crate::paths::comps(goal) {
        Ok((Work { skipped: bump(w.skipped), ..w }, goal))
    } else {
        match place(disk, orphans, w.used, from, goal) {
            Err(q) => Err(q),
            Ok(to) => if crate::paths::comps(from) == crate::paths::comps(to) {
                Ok((Work { skipped: bump(w.skipped), used: w.used.push(to), ..w }, to))
            } else {
                Ok(
                    (
                        Work {
                            moves: w.moves.push(
                                MoveView { track_id: t.id, from, to, also_collection: also(t) },
                            ),
                            used: w.used.push(to),
                            ..w
                        },
                        to,
                    ),
                )
            },
        }
    }
}

/// Records the directory that a track's album ends up in.
pub open spec fn album_step(t: OrganizeTrackRow, place: Seq<char>, w: Work) -> Work {
    if t.album_title is Some && t.album_id is Some && crate::paths::parent_of(place) is Some {
        Work {
            albums: with_album(w.albums, t.album_id->0, crate::paths::parent_of(place)->0),
            ..w
        }
    } else {
        w
    }
}

/// The collections that a track is copied for: all of them for an album
/// track, all but the first for a loose one, whose own file is there.
pub open spec fn copied_for(t: OrganizeTrackRow) -> Seq<OrganizeCollectionMembership> {
    let cs = by_id(t.collections@);
    if t.album_title is Some || cs.len() == 0 { cs } else { cs.skip(1) }
}

/// Plans one track.
#[verifier::opaque]
pub open spec fn track_step(
    disk: Seq<Probe>,
    lib: LibrarySettings,
    orphans: Seq<Seq<char>>,
    t: OrganizeTrackRow,
    w: Work,
) -> Result<Work, Seq<char>> {
    match exists_on(disk, t.file_path@) {
        Err(q) => Err(q),
        Ok(false) => Ok(
            Work { missing: w.missing.push((t.id, t.file_path@, t.title@)), ..w },
        ),
        Ok(true) => match move_step(disk, lib, orphans, t, w) {
            Err(q) => Err(q),
            Ok((next, place)) => copy_steps(
                disk,
                lib,
                orphans,
                t,
                place,
                copied_for(t),
                0,
                album_step(t, place, next),
            ),
        },
    }
}

/// Plans the tracks from `i` on.
pub open spec fn track_steps(
    disk: Seq<Probe>,
    lib: LibrarySettings,
    orphans: Seq<Seq<char>>,
    ts: Seq<OrganizeTrackRow>,
    i: int,
    w: Work,
) -> Result<Work, Seq<char>>
    decreases ts.len() - i,
{
    if i < 0 || i >= ts.len() {
        Ok(w)
    } else {
        match track_step(disk, lib, orphans, ts[i], w) {
            Err(q) => Err(q),
            Ok(next) => track_steps(disk, lib, orphans, ts, i + 1, next),
        }
    }
}

/// Takes the places of the tracks from `i` on that are where they belong.
/// They own these places before anything is assigned, so that the plan does
/// not depend on the order of the rows.
pub open spec fn reserve_steps(
    disk: Seq<Probe>,
    lib: LibrarySettings,
    ts: Seq<OrganizeTrackRow>,
    i: int,
    used: Seq<Seq<char>>,
) -> Result<Seq<Seq<char>>, Seq<char>>
    decreases ts.len() - i,
{
    if i < 0 || i >= ts.len() {
        Ok(used)
    } else {
        match exists_on(disk, ts[i].file_path@) {
            Err(q) => Err(q),
            Ok(there) => reserve_steps(
                disk,
                lib,
                ts,
                i + 1,
                if there && crate::paths::comps(ts[i].file_path@) == crate::paths::comps(
                    primary_home(lib, ts[i]),
                ) {
                    used.push(primary_home(lib, ts[i]))
                } else {
                    used
                },
            ),
        }
    }
}

/// Whether one of the tracks is at the path `p`.
pub open spec fn is_source(ts: Seq<OrganizeTrackRow>, p: Seq<char>) -> bool {
    exists|i: int|
        0 <= i < ts.len() && crate::paths::comps((#[trigger] ts[i]).file_path@) == crate::paths::comps(p)
}

/// Whether one of the tracks is planned for a collection.
pub open spec fn is_member(ts: Seq<OrganizeTrackRow>, track_id: i64, collection_id: i64) -> bool {
    exists|i: int, j: int|
        0 <= i < ts.len() && 0 <= j < ts[i].collections@.len() && ts[i].id == track_id && (
        #[trigger] ts[i].collections@[j]).id == collection_id
}

/// The paths among the first `n` that no planned track leaves.
pub open spec fn claimed_by_others(
    all: Seq<Seq<char>>,
    ts: Seq<OrganizeTrackRow>,
    n: int,
) -> Seq<Seq<char>>
    decreases n,
{
    if n <= 0 {
        Seq::empty()
    } else {
        let before = claimed_by_others(all, ts, n - 1);
        if is_source(ts, all[n - 1]) { before } else { before.push(all[n - 1]) }
    }
}

/// The recorded collection copies among the first `n` that are not planned
/// anew.
pub open spec fn claimed_by_copies(
    copies: Seq<(i64, i64, String)>,
    ts: Seq<OrganizeTrackRow>,
    n: int,
) -> Seq<Seq<char>>
    decreases n,
{
    if n <= 0 {
        Seq::empty()
    } else {
        let before = claimed_by_copies(copies, ts, n - 1);
        let c = copies[n - 1];
        if is_member(ts, c.0, c.1) { before } else { before.push(c.2@) }
    }
}

/// Where the cover of each album from `i` on goes: next to its tracks, under
/// the name `cover` with its own extension, if it is on disk and not there
/// already.
pub open spec fn cover_steps(
    disk: Seq<Probe>,
    covers: Seq<(i64, Seq<char>)>,
    albums: Seq<(i64, Seq<char>)>,
    i: int,
) -> Result<Seq<(i64, Seq<char>, Seq<char>)>, Seq<char>>
    decreases albums.len() - i,
{
    if i < 0 || i >= albums.len() {
        Ok(Seq::empty())
    } else {
        let id = albums[i].0;
        match cover_of(covers, id) {
            None => cover_steps(disk, covers, albums, i + 1),
            Some(src) => match exists_on(disk, src) {
                Err(q) => Err(q),
                Ok(there) => match cover_steps(disk, covers, albums, i + 1) {
                    Err(q) => Err(q),
                    Ok(rest) => {
                        let dest = cover_home(albums[i].1, src);
                        if there && crate::paths::comps(src) != crate::paths::comps(dest) {
                            Ok(seq![(id, src, dest)] + rest)
                        } else {
                            Ok(rest)
                        }
                    },
                },
            },
        }
    }
}

/// The recorded cover of an album.
pub open spec fn cover_of(covers: Seq<(i64, Seq<char>)>, id: i64) -> Option<Seq<char>>
    decreases covers.len(),
{
    if covers.len() == 0 {
        None
    } else if covers[0].0 == id {
        Some(covers[0].1)
    } else {
        cover_of(covers.skip(1), id)
    }
}

/// The place of a cover in its album's directory.
pub open spec fn cover_home(dir: Seq<char>, src: Seq<char>) -> Seq<char> {
    let ext = match crate::paths::ext_of_path(src) {
        Some(e) => e,
        None => "jpg"@,
    };
    crate::paths::joined(dir, "cover."@ + crate::text::ascii_lowered(ext))
}

/// Why the rows of missing tracks are kept: a hundred or more are missing,
/// or five or more that are over a fifth of all.
pub open spec fn prune_reason(missing: nat, total: nat) -> Option<Seq<char>> {
    if missing >= 100 || (missing >= 5 && missing * 5 > total) {
        Some(
            crate::text::decimal(missing) + " of "@ + crate::text::decimal(total)
                + " source files are missing — this looks like an unavailable volume, so their DB rows will NOT be pruned"@,
        )
    } else {
        None
    }
}

/// What was planned, before any track is.
pub open spec fn empty_work(used: Seq<Seq<char>>) -> Work {
    Work {
        used,
        moves: Seq::empty(),
        copies: Seq::empty(),
        backfills: Seq::empty(),
        skipped: 0,
        missing: Seq::empty(),
        albums: Seq::empty(),
    }
}

/// The paths that are taken before any track is assigned: those of all other
/// tracks and copies, and those of tracks that are where they belong.
pub open spec fn reserved(
    disk: Seq<Probe>,
    lib: LibrarySettings,
    ts: Seq<OrganizeTrackRow>,
    all: Seq<Seq<char>>,
    copies: Seq<(i64, i64, String)>,
) -> Result<Seq<Seq<char>>, Seq<char>> {
    reserve_steps(
        disk,
        lib,
        ts,
        0,
        claimed_by_others(all, ts, all.len() as int) + claimed_by_copies(
            copies,
            ts,
            copies.len() as int,
        ),
    )
}

/// All that is planned for the tracks.
pub open spec fn planned(
    disk: Seq<Probe>,
    lib: LibrarySettings,
    orphans: Seq<Seq<char>>,
    ts: Seq<OrganizeTrackRow>,
    all: Seq<Seq<char>>,
    copies: Seq<(i64, i64, String)>,
) -> Result<Work, Seq<char>> {
    match reserved(disk, lib, ts, all, copies) {
        Err(q) => Err(q),
        Ok(used) => track_steps(disk, lib, orphans, ts, 0, empty_work(used)),
    }
}

/// The whole plan: what is planned for the tracks, and the moves of covers.
pub open spec fn plan_of(
    disk: Seq<Probe>,
    lib: LibrarySettings,
    orphans: Seq<Seq<char>>,
    ts: Seq<OrganizeTrackRow>,
    all: Seq<Seq<char>>,
    copies: Seq<(i64, i64, String)>,
    covers: Seq<(i64, Seq<char>)>,
) -> Result<(Work, Seq<(i64, Seq<char>, Seq<char>)>), Seq<char>> {
    match planned(disk, lib, orphans, ts, all, copies) {
        Err(q) => Err(q),
        Ok(w) => match cover_steps(disk, covers, w.albums, 0) {
            Err(q) => Err(q),
            Ok(moves) => Ok((w, moves)),
        },
    }
}

/// The paths of the pending orphans.
pub open spec fn orphan_paths(orphans: Seq<OrphanFileRow>) -> Seq<Seq<char>> {
    orphans.map_values(|o: OrphanFileRow| o.file_path@)
}

/// What a plan holds of a pending orphan.
pub open spec fn is_entry(e: FileOrphanEntry, o: OrphanFileRow) -> bool {
    e.id == o.id && e.path@ == o.file_path@ && e.title == o.title && e.artist == o.artist
        && e.album_title == o.album_title && e.reason@ == o.reason@
}

// ---------------------------------------------------------------------------
// Planning

struct Planning {
    used: Vec<String>,
    moves: Vec<FileMove>,
    copies: Vec<FileCopy>,
    backfills: Vec<CollectionCopyBackfill>,
    skipped: usize,
    missing: Vec<(i64, String, String)>,
    albums: Vec<(i64, String)>,
}

impl Planning {
    spec fn work(&self) -> Work {
        Work {
            used: crate::text::views(self.used@),
            moves: move_views(self.moves@),
            copies: copy_views(self.copies@),
            backfills: backfill_views(self.backfills@),
            skipped: self.skipped,
            missing: missing_views(self.missing@),
            albums: pair_views(self.albums@),
        }
    }

    fn take(&mut self, p: String)
        ensures
            final(self).work() == (Work { used: old(self).work().used.push(p@), ..old(self).work() }),
    {
        self.used.push(p);
        assert(crate::text::views(self.used@) =~= crate::text::views(old(self).used@).push(p@));
    }

    fn skip_one(&mut self)
        ensures
            final(self).work() == (Work { skipped: bump(old(self).skipped), ..old(self).work() }),
    {
        if self.skipped < usize::MAX {
            self.skipped = self.skipped + 1;
        }
    }

    fn add_move(&mut self, m: FileMove)
        ensures
            final(self).work() == (Work { moves: old(self).work().moves.push(m@), ..old(self).work() }),
    {
        self.moves.push(m);
        assert(move_views(self.moves@) =~= move_views(old(self).moves@).push(m@));
    }

    fn add_copy(&mut self, c: FileCopy)
        ensures
            final(self).work() == (Work {
                copies: old(self).work().copies.push(c@),
                ..old(self).work()
            }),
    {
        self.copies.push(c);
        assert(copy_views(self.copies@) =~= copy_views(old(self).copies@).push(c@));
    }

    /// Records that the copy at `target` is on disk, if that is not known.
    fn maybe_backfill_collection_copy(
        &mut self,
        track_id: i64,
        coll: &OrganizeCollectionMembership,
        target: &str,
    )
        ensures
            final(self).work() == (Work {
                backfills: if crate::text::opt_view(coll.collection_file_path) == Some(target@) {
                    old(self).work().backfills
                } else {
                    old(self).work().backfills.push((track_id, coll.id, target@))
                },
                ..old(self).work()
            }),
    {
        let known = match &coll.collection_file_path {
            Some(p) => same(p.as_str(), target),
            None => false,
        };
        if !known {
            let b = CollectionCopyBackfill {
                track_id,
                collection_id: coll.id,
                path: target.to_owned(),
            };
            self.backfills.push(b);
            assert(backfill_views(self.backfills@) =~= backfill_views(old(self).backfills@).push(
                (track_id, coll.id, target@),
            ));
        }
    }

    fn add_missing(&mut self, t: &OrganizeTrackRow)
        ensures
            final(self).work() == (Work {
                missing: old(self).work().missing.push((t.id, t.file_path@, t.title@)),
                ..old(self).work()
            }),
    {
        let m = (t.id, t.file_path.clone(), t.title.clone());
        self.missing.push(m);
        assert(missing_views(self.missing@) =~= missing_views(old(self).missing@).push(
            (t.id, t.file_path@, t.title@),
        ));
    }

    fn add_album(&mut self, id: i64, dir: String)
        ensures
            final(self).work() == (Work {
                albums: with_album(old(self).work().albums, id, dir@),
                ..old(self).work()
            }),
    {
        let ghost before = pair_views(self.albums@);
        let mut at: usize = self.albums.len();
        while at > 0 && self.albums[at - 1].0 > id
            invariant
                at <= self.albums@.len(),
                before == pair_views(self.albums@),
                forall|k: int| at <= k < before.len() ==> (#[trigger] before[k]).0 > id,
            decreases at,
        {
            assert(before[at - 1].0 == self.albums@[at - 1].0);
            at -= 1;
        }
        proof {
            if at > 0 {
                assert(before[at - 1].0 == self.albums@[at - 1].0);
            }
            lemma_with_album(before, id, dir@, at as int);
        }
        if at > 0 && self.albums[at - 1].0 == id {
            return;
        }
        self.albums.insert(at, (id, dir));
        assert(pair_views(self.albums@) =~= before.insert(at as int, (id, dir@)));
    }
}

proof fn lemma_with_album(albums: Seq<(i64, Seq<char>)>, id: i64, dir: Seq<char>, at: int)
    requires
        0 <= at <= albums.len(),
        forall|k: int| at <= k < albums.len() ==> (#[trigger] albums[k]).0 > id,
        at > 0 ==> albums[at - 1].0 <= id,
    ensures
        with_album(albums, id, dir) == if at > 0 && albums[at - 1].0 == id {
            albums
        } else {
            albums.insert(at, (id, dir))
        },
    decreases albums.len(),
{
    if at < albums.len() {
        assert(albums.last() == albums[albums.len() - 1]);
        lemma_with_album(albums.drop_last(), id, dir, at);
        if at > 0 && albums[at - 1].0 == id {
            assert(albums.drop_last().push(albums.last()) =~= albums);
        } else {
            assert(albums.drop_last().insert(at, (id, dir)).push(albums.last()) =~= albums.insert(
                at,
                (id, dir),
            ));
        }
    } else if at == 0 || albums[at - 1].0 != id {
        assert(albums.push((id, dir)) =~= albums.insert(at, (id, dir)));
    }
}

fn plan_copy(
    disk: &Vec<Probe>,
    lib: &LibrarySettings,
    orphans: &Vec<String>,
    t: &OrganizeTrackRow,
    ctx: &TrackTargets,
    source: &str,
    c: &OrganizeCollectionMembership,
    w: &mut Planning,
) -> (r: Result<(), String>)
    requires
        ctx.of(*t),
    ensures
        ({
            let want = copy_step(
                disk@,
                *lib,
                crate::text::views(orphans@),
                *t,
                source@,
                *c,
                old(w).work(),
            );
            match r {
                Ok(()) => want == Ok::<Work, Seq<char>>(final(w).work()),
                Err(q) => want == Err::<Work, Seq<char>>(q@),
            }
        }),
{
    proof {
        reveal(copy_step);
    }
    let raw = ctx.collection_target(c, lib, Ghost(*t));
    match on_disk(disk, raw.as_str()) {
        Err(q) => Err(q),
        Ok(true) => {
            w.maybe_backfill_collection_copy(t.id, c, raw.as_str());
            w.take(raw);
            w.skip_one();
            Ok(())
        },
        Ok(false) => {
            match disambiguate(disk, orphans, &w.used, source, raw.as_str()) {
                Err(q) => Err(q),
                Ok(to) => {
                    w.add_copy(
                        FileCopy {
                            track_id: t.id,
                            collection_id: c.id,
                            collection_name: c.name.clone(),
                            from: source.to_owned(),
                            to: to.clone(),
                        },
                    );
                    w.take(to);
                    Ok(())
                },
            }
        },
    }
}

fn plan_move(
    disk: &Vec<Probe>,
    lib: &LibrarySettings,
    orphans: &Vec<String>,
    t: &OrganizeTrackRow,
    ctx: &TrackTargets,
    w: &mut Planning,
) -> (r: Result<String, String>)
    requires
        ctx.of(*t),
    ensures
        ({
            let want = move_step(disk@, *lib, crate::text::views(orphans@), *t, old(w).work());
            match r {
                Ok(p) => want == Ok::<(Work, Seq<char>), Seq<char>>((final(w).work(), p@)),
                Err(q) => want == Err::<(Work, Seq<char>), Seq<char>>(q@),
            }
        }),
{
    proof {
        reveal(move_step);
    }
    let goal = ctx.primary_target(lib, Ghost(*t));
    let from = ctx.from.as_str();
    if same_path(from, goal.as_str()) {
        w.skip_one();
        return Ok(goal);
    }
    match disambiguate(disk, orphans, &w.used, from, goal.as_str()) {
        Err(q) => Err(q),
        Ok(to) => {
            if same_path(from, to.as_str()) {
                w.take(to.clone());
                w.skip_one();
            } else {
                proof {
                    lemma_by_id_len(t.collections@);
                }
                let also_collection = if !ctx.has_album && ctx.collections.len() > 0 {
                    Some((ctx.collections[0].id, ctx.collections[0].name.clone()))
                } else {
                    None
                };
                let m = FileMove {
                    track_id: t.id,
                    from: t.file_path.clone(),
                    to: to.clone(),
                    also_collection,
                };
                w.add_move(m);
                w.take(to.clone());
            }
            Ok(to)
        },
    }
}

fn plan_track(
    disk: &Vec<Probe>,
    lib: &LibrarySettings,
    orphans: &Vec<String>,
    t: &OrganizeTrackRow,
    w: &mut Planning,
) -> (r: Result<(), String>)
    ensures
        ({
            let want = track_step(disk@, *lib, crate::text::views(orphans@), *t, old(w).work());
            match r {
                Ok(()) => want == Ok::<Work, Seq<char>>(final(w).work()),
                Err(q) => want == Err::<Work, Seq<char>>(q@),
            }
        }),
{
    proof {
        reveal(track_step);
    }
    match on_disk(disk, t.file_path.as_str()) {
        Err(q) => return Err(q),
        Ok(false) => {
            w.add_missing(t);
            return Ok(());
        },
        Ok(true) => {},
    }
    let ctx = TrackTargets::new(t);
    let source = match plan_move(disk, lib, orphans, t, &ctx, w) {
        Err(q) => return Err(q),
        Ok(p) => p,
    };
    if ctx.has_album {
        if let Some(id) = t.album_id {
            if let Some(dir) = parent(source.as_str()) {
                w.add_album(id, dir);
            }
        }
    }
    let ghost o = crate::text::views(orphans@);
    let ghost cs = copied_for(*t);
    let ghost all = by_id(t.collections@);
    proof {
        lemma_by_id_len(t.collections@);
    }
    let mut i: usize = if ctx.has_album || ctx.collections.len() == 0 {
        0
    } else {
        1
    };
    let ghost off = i as int;
    let ghost start = w.work();
    let n: usize = ctx.collections.len();
    while i < n
        invariant
            0 <= off <= i <= n,
            n == ctx.collections@.len(),
            ctx.of(*t),
            track_step(disk@, *lib, o, *t, old(w).work()) == copy_steps(
                disk@,
                *lib,
                o,
                *t,
                source@,
                cs,
                0,
                start,
            ),
            ctx.collections@ == all,
            o == crate::text::views(orphans@),
            cs == all.skip(off),
            copy_steps(disk@, *lib, o, *t, source@, cs, 0, start) == copy_steps(
                disk@,
                *lib,
                o,
                *t,
                source@,
                cs,
                i - off,
                w.work(),
            ),
        decreases n - i,
    {
        assert(cs[i - off] == all[i as int]);
        match plan_copy(disk, lib, orphans, t, &ctx, source.as_str(), &ctx.collections[i], w) {
            Err(q) => return Err(q),
            Ok(()) => {},
        }
        i += 1;
    }
    Ok(())
}

/// Whether one of the tracks is at the path `p`.
fn source_named(ts: &Vec<OrganizeTrackRow>, p: &str) -> (r: bool)
    ensures
        r == is_source(ts@, p@),
{
    let mut i: usize = 0;
    while i < ts.len()
        invariant
            i <= ts@.len(),
            forall|k: int|
                0 <= k < i ==> crate::paths::comps((#[trigger] ts@[k]).file_path@)
                    != crate::paths::comps(p@),
        decreases ts@.len() - i,
    {
        if same_path(ts[i].file_path.as_str(), p) {
            return true;
        }
        i += 1;
    }
    false
}

/// Whether one of the tracks is planned for a collection.
fn member_planned(ts: &Vec<OrganizeTrackRow>, track_id: i64, collection_id: i64) -> (r: bool)
    ensures
        r == is_member(ts@, track_id, collection_id),
{
    let mut i: usize = 0;
    while i < ts.len()
        invariant
            i <= ts@.len(),
            forall|a: int, b: int|
                0 <= a < i && 0 <= b < ts@[a].collections@.len() && ts@[a].id == track_id ==> (
                #[trigger] ts@[a].collections@[b]).id != collection_id,
        decreases ts@.len() - i,
    {
        if ts[i].id == track_id {
            let cs = &ts[i].collections;
            let mut j: usize = 0;
            while j < cs.len()
                invariant
                    j <= cs@.len(),
                    i < ts@.len(),
                    *cs == ts@[i as int].collections,
                    ts@[i as int].id == track_id,
                    forall|b: int| 0 <= b < j ==> (#[trigger] cs@[b]).id != collection_id,
                decreases cs@.len() - j,
            {
                if cs[j].id == collection_id {
                    assert(ts@[i as int].collections@[j as int].id == collection_id);
                    return true;
                }
                j += 1;
            }
        }
        i += 1;
    }
    false
}

/// The paths that other tracks and copies hold.
fn claimed(
    ts: &Vec<OrganizeTrackRow>,
    all: &Vec<String>,
    copies: &Vec<(i64, i64, String)>,
) -> (r: Vec<String>)
    ensures
        crate::text::views(r@) == claimed_by_others(
            crate::text::views(all@),
            ts@,
            all@.len() as int,
        ) + claimed_by_copies(copies@, ts@, copies@.len() as int),
{
    let ghost av = crate::text::views(all@);
    let mut used: Vec<String> = Vec::new();
    let mut i: usize = 0;
    assert(crate::text::views(used@) =~= Seq::<Seq<char>>::empty());
    while i < all.len()
        invariant
            i <= all@.len(),
            av == crate::text::views(all@),
            crate::text::views(used@) == claimed_by_others(av, ts@, i as int),
        decreases all@.len() - i,
    {
        let ghost before = used@;
        assert(av[i as int] == all@[i as int]@);
        if !source_named(ts, all[i].as_str()) {
            used.push(all[i].clone());
            assert(crate::text::views(used@) =~= crate::text::views(before).push(av[i as int]));
        }
        i += 1;
    }
    let ghost others = crate::text::views(used@);
    let mut j: usize = 0;
    assert(others + claimed_by_copies(copies@, ts@, 0) =~= others);
    while j < copies.len()
        invariant
            j <= copies@.len(),
            crate::text::views(used@) == others + claimed_by_copies(copies@, ts@, j as int),
        decreases copies@.len() - j,
    {
        let ghost before = used@;
        let ghost c = claimed_by_copies(copies@, ts@, j as int);
        if !member_planned(ts, copies[j].0, copies[j].1) {
            used.push(copies[j].2.clone());
            assert(crate::text::views(used@) =~= crate::text::views(before).push(
                copies@[j as int].2@,
            ));
            assert((others + c).push(copies@[j as int].2@) =~= others + c.push(
                copies@[j as int].2@,
            ));
        }
        j += 1;
    }
    used
}

/// Takes the places of tracks that are where they belong.
fn reserve(
    disk: &Vec<Probe>,
    lib: &LibrarySettings,
    ts: &Vec<OrganizeTrackRow>,
    start: Vec<String>,
) -> (r: Result<Vec<String>, String>)
    ensures
        ({
            let want = reserve_steps(disk@, *lib, ts@, 0, crate::text::views(start@));
            match r {
                Ok(u) => want == Ok::<Seq<Seq<char>>, Seq<char>>(crate::text::views(u@)),
                Err(q) => want == Err::<Seq<Seq<char>>, Seq<char>>(q@),
            }
        }),
{
    let ghost first = crate::text::views(start@);
    let mut used = start;
    let mut i: usize = 0;
    while i < ts.len()
        invariant
            i <= ts@.len(),
            first == crate::text::views(start@),
            reserve_steps(disk@, *lib, ts@, 0, first) == reserve_steps(
                disk@,
                *lib,
                ts@,
                i as int,
                crate::text::views(used@),
            ),
        decreases ts@.len() - i,
    {
        match on_disk(disk, ts[i].file_path.as_str()) {
            Err(q) => return Err(q),
            Ok(false) => {},
            Ok(true) => {
                let ctx = TrackTargets::new(&ts[i]);
                let goal = ctx.primary_target(lib, Ghost(ts@[i as int]));
                if same_path(ts[i].file_path.as_str(), goal.as_str()) {
                    let ghost before = used@;
                    used.push(goal);
                    assert(crate::text::views(used@) =~= crate::text::views(before).push(goal@));
                }
            },
        }
        i += 1;
    }
    Ok(used)
}

/// The recorded cover of an album.
fn find_cover(covers: &Vec<(i64, String)>, id: i64) -> (r: Option<usize>)
    ensures
        match r {
            Some(i) => i < covers@.len() && cover_of(pair_views(covers@), id) == Some(
                covers@[i as int].1@,
            ),
            None => cover_of(pair_views(covers@), id) is None,
        },
{
    let ghost cv = pair_views(covers@);
    let mut i: usize = 0;
    assert(cv.skip(0) =~= cv);
    while i < covers.len()
        invariant
            i <= covers@.len(),
            cv == pair_views(covers@),
            cover_of(cv, id) == cover_of(cv.skip(i as int), id),
        decreases covers@.len() - i,
    {
        assert(cv.skip(i as int)[0] == cv[i as int]);
        if covers[i].0 == id {
            return Some(i);
        }
        assert(cv.skip(i as int).skip(1) =~= cv.skip(i + 1));
        i += 1;
    }
    None
}

/// Where the covers of the albums from `i` on go.
fn plan_covers(
    disk: &Vec<Probe>,
    covers: &Vec<(i64, String)>,
    albums: &Vec<(i64, String)>,
) -> (r: Result<Vec<CoverMove>, String>)
    ensures
        ({
            let want = cover_steps(disk@, pair_views(covers@), pair_views(albums@), 0);
            match r {
                Ok(v) => want is Ok && want->Ok_0 == cover_views(v@),
                Err(q) => want is Err && want->Err_0 == q@,
            }
        }),
{
    let ghost cv = pair_views(covers@);
    let ghost av = pair_views(albums@);
    let mut out: Vec<CoverMove> = Vec::new();
    let mut i: usize = 0;
    assert(cover_views(out@) =~= Seq::<(i64, Seq<char>, Seq<char>)>::empty());
    while i < albums.len()
        invariant
            i <= albums@.len(),
            cv == pair_views(covers@),
            av == pair_views(albums@),
            ({
                let rest = cover_steps(disk@, cv, av, i as int);
                let want = cover_steps(disk@, cv, av, 0);
                &&& rest is Err ==> want is Err && want->Err_0 == rest->Err_0
                &&& rest is Ok ==> want is Ok && want->Ok_0 == cover_views(out@) + rest->Ok_0
            }),
        decreases albums@.len() - i,
    {
        assert(av[i as int] == (albums@[i as int].0, albums@[i as int].1@));
        let ghost before = cover_views(out@);
        let ghost rest = cover_steps(disk@, cv, av, i + 1);
        if let Some(k) = find_cover(covers, albums[i].0) {
            let src = covers[k].1.as_str();
            match on_disk(disk, src) {
                Err(q) => return Err(q),
                Ok(there) => {
                    let ext = match extension(src) {
                        Some(e) => e,
                        None => "jpg".to_owned(),
                    };
                    let low = ascii_lower_text(ext.as_str());
                    let mut name = "cover.".to_owned();
                    name.append(low.as_str());
                    let dest = join(albums[i].1.as_str(), name.as_str());
                    assert(dest@ == cover_home(av[i as int].1, src@));
                    if there && !same_path(src, dest.as_str()) {
                        let m = CoverMove { album_id: albums[i].0, from: src.to_owned(), to: dest };
                        out.push(m);
                        assert(cover_views(out@) =~= before.push((albums@[i as int].0, src@, dest@)));
                        proof {
                            if rest is Ok {
                                assert(before + (seq![(albums@[i as int].0, src@, dest@)] + rest->Ok_0)
                                    =~= cover_views(out@) + rest->Ok_0);
                            }
                        }
                    }
                },
            }
        }
        i += 1;
    }
    assert(cover_views(out@) + Seq::<(i64, Seq<char>, Seq<char>)>::empty() =~= cover_views(out@));
    Ok(out)
}

/// Why the rows of missing tracks are kept, if they are.
fn prune_guard(missing: usize, total: usize) -> (r: Option<String>)
    ensures
        crate::text::opt_view(r) == prune_reason(missing as nat, total as nat),
{
    if missing >= 100 || (missing >= 5 && missing > total / 5) {
        let mut out = number_text(missing as u64);
        out.append(" of ");
        let n = number_text(total as u64);
        out.append(n.as_str());
        out.append(
            " source files are missing — this looks like an unavailable volume, so their DB rows will NOT be pruned",
        );
        Some(out)
    } else {
        None
    }
}

/// The pending orphans as the plan lists them.
fn orphan_entries(orphans: &Vec<OrphanFileRow>) -> (r: Vec<FileOrphanEntry>)
    ensures
        r@.len() == orphans@.len(),
        forall|i: int| 0 <= i < r@.len() ==> is_entry(#[trigger] r@[i], orphans@[i]),
{
    let mut out: Vec<FileOrphanEntry> = Vec::new();
    let mut i: usize = 0;
    while i < orphans.len()
        invariant
            i <= orphans@.len(),
            out@.len() == i,
            forall|k: int| 0 <= k < i ==> is_entry(#[trigger] out@[k], orphans@[k]),
        decreases orphans@.len() - i,
    {
        let o = &orphans[i];
        out.push(
            FileOrphanEntry {
                id: o.id,
                path: o.file_path.clone(),
                title: copy_text(&o.title),
                artist: copy_text(&o.artist),
                album_title: copy_text(&o.album_title),
                reason: o.reason.clone(),
            },
        );
        i += 1;
    }
    out
}

fn paths_of_orphans(orphans: &Vec<OrphanFileRow>) -> (r: Vec<String>)
    ensures
        crate::text::views(r@) == orphan_paths(orphans@),
{
    let mut out: Vec<String> = Vec::new();
    let mut i: usize = 0;
    while i < orphans.len()
        invariant
            i <= orphans@.len(),
            crate::text::views(out@) == orphan_paths(orphans@).take(i as int),
        decreases orphans@.len() - i,
    {
        let ghost before = out@;
        out.push(orphans[i].file_path.clone());
        i += 1;
        assert(crate::text::views(out@) =~= crate::text::views(before).push(
            orphans@[i - 1].file_path@,
        ));
        assert(orphan_paths(orphans@).take(i as int) =~= orphan_paths(orphans@).take(i - 1).push(
            orphans@[i - 1].file_path@,
        ));
    }
    assert(orphan_paths(orphans@).take(i as int) =~= orphan_paths(orphans@));
    out
}

/// What planning comes to.
#[derive(Debug)]
pub enum PlanOutcome {
    Plan(OrganizePlan),
    /// The plan depends on a path that has not been probed: the first one.
    Ask(String),
    /// The music directory cannot be read.
    Unavailable(String),
}

/// Whether `p` holds what was planned.
pub open spec fn plan_holds(
    p: OrganizePlan,
    w: Work,
    covers: Seq<(i64, Seq<char>, Seq<char>)>,
    orphans: Seq<OrphanFileRow>,
    total: nat,
) -> bool {
    &&& move_views(p.moves@) == w.moves
    &&& copy_views(p.copies@) == w.copies
    &&& backfill_views(p.copy_backfills@) == w.backfills
    &&& cover_views(p.cover_moves@) == covers
    &&& p.skipped == w.skipped
    &&& missing_views(p.missing_sources@) == w.missing
    &&& p.file_orphans@.len() == orphans.len()
    &&& forall|i: int| 0 <= i < orphans.len() ==> is_entry(#[trigger] p.file_orphans@[i], orphans[i])
    &&& crate::text::opt_view(p.prune_blocked_reason) == prune_reason(w.missing.len(), total)
}

/// Plans an organize run without touching anything.
///
/// `tracks` are the tracks to organize; `all_paths` the files of all tracks;
/// `collection_paths` the recorded copies, by track and collection; `orphans`
/// the files whose row is gone; `covers` the recorded covers, by album. What
/// is on disk comes from `disk`; where the plan needs a path that is not in
/// it, it asks for that path.
pub fn plan_organize(
    lib: &LibrarySettings,
    music_dir_error: &Option<String>,
    tracks: &Vec<OrganizeTrackRow>,
    all_paths: &Vec<String>,
    collection_paths: &Vec<(i64, i64, String)>,
    orphans: &Vec<OrphanFileRow>,
    covers: &Vec<(i64, String)>,
    disk: &Vec<Probe>,
) -> (r: PlanOutcome)
    ensures
        ({
            let want = plan_of(
                disk@,
                *lib,
                orphan_paths(orphans@),
                tracks@,
                crate::text::views(all_paths@),
                collection_paths@,
                pair_views(covers@),
            );
            match (*music_dir_error, r) {
                (Some(e), PlanOutcome::Unavailable(m)) => m@ == "music directory "@ + lib.music_dir@
                    + " is not accessible ("@ + e@ + ") — is the drive mounted?"@,
                (None, PlanOutcome::Plan(p)) => want is Ok && plan_holds(
                    p,
                    want->Ok_0.0,
                    want->Ok_0.1,
                    orphans@,
                    tracks@.len(),
                ),
                (None, PlanOutcome::Ask(q)) => want is Err && want->Err_0 == q@,
                _ => false,
            }
        }),
{
    if let Some(e) = music_dir_error {
        let mut m = "music directory ".to_owned();
        m.append(lib.music_dir.as_str());
        m.append(" is not accessible (");
        m.append(e.as_str());
        m.append(") — is the drive mounted?");
        return PlanOutcome::Unavailable(m);
    }
    let file_orphans = orphan_entries(orphans);
    let orphan_list = paths_of_orphans(orphans);
    let start = claimed(tracks, all_paths, collection_paths);
    let used = match reserve(disk, lib, tracks, start) {
        Err(q) => return PlanOutcome::Ask(q),
        Ok(u) => u,
    };
    let ghost o = crate::text::views(orphan_list@);
    let ghost first = empty_work(crate::text::views(used@));
    let mut w = Planning {
        used,
        moves: Vec::new(),
        copies: Vec::new(),
        backfills: Vec::new(),
        skipped: 0,
        missing: Vec::new(),
        albums: Vec::new(),
    };
    assert(w.work() =~= first);
    let mut i: usize = 0;
    while i < tracks.len()
        invariant
            i <= tracks@.len(),
            o == crate::text::views(orphan_list@),
            o == orphan_paths(orphans@),
            *music_dir_error is None,
            planned(
                disk@,
                *lib,
                o,
                tracks@,
                crate::text::views(all_paths@),
                collection_paths@,
            ) == track_steps(disk@, *lib, o, tracks@, 0, first),
            track_steps(disk@, *lib, o, tracks@, 0, first) == track_steps(
                disk@,
                *lib,
                o,
                tracks@,
                i as int,
                w.work(),
            ),
        decreases tracks@.len() - i,
    {
        match plan_track(disk, lib, &orphan_list, &tracks[i], &mut w) {
            Err(q) => return PlanOutcome::Ask(q),
            Ok(()) => {},
        }
        i += 1;
    }
    let cover_moves = match plan_covers(disk, covers, &w.albums) {
        Err(q) => return PlanOutcome::Ask(q),
        Ok(v) => v,
    };
    let prune_blocked_reason = prune_guard(w.missing.len(), tracks.len());
    PlanOutcome::Plan(
        OrganizePlan {
            moves: w.moves,
            copies: w.copies,
            copy_backfills: w.backfills,
            cover_moves,
            skipped: w.skipped,
            missing_sources: w.missing,
            file_orphans,
            prune_blocked_reason,
        },
    )
}

/// The roots below which tracked files may be deleted: the music directory
/// alone. Files in an inbox are not the library's to delete.
pub fn file_delete_roots(lib: &LibrarySettings) -> (r: Vec<String>)
    ensures
        crate::text::views(r@) == seq![lib.music_dir@],
{
    let mut roots: Vec<String> = Vec::new();
    roots.push(lib.music_dir.clone());
    assert(crate::text::views(roots@) =~= seq![lib.music_dir@]);
    roots
}

/// The roots below which empty directories may be removed: the music
/// directory and the inboxes.
pub fn cleanup_roots(lib: &LibrarySettings) -> (r: Vec<String>)
    ensures
        crate::text::views(r@) == seq![lib.music_dir@] + crate::text::views(lib.inbox_dirs@),
{
    let mut roots: Vec<String> = Vec::new();
    roots.push(lib.music_dir.clone());
    let mut inboxes = crate::text::copy_all(&lib.inbox_dirs);
    roots.append(&mut inboxes);
    assert(crate::text::views(roots@) =~= seq![lib.music_dir@] + crate::text::views(
        lib.inbox_dirs@,
    ));
    roots
}

// ---------------------------------------------------------------------------
// Laws

/// Whether the file from `from` may go to `p`.
pub open spec fn free(
    disk: Seq<Probe>,
    orphans: Seq<Seq<char>>,
    used: Seq<Seq<char>>,
    p: Seq<char>,
    from: Seq<char>,
) -> bool {
    slot_free(disk, orphans, used, p, from) == Ok::<bool, Seq<char>>(true)
}

/// Whether the file from `from` may not go to `p`.
pub open spec fn occupied(
    disk: Seq<Probe>,
    orphans: Seq<Seq<char>>,
    used: Seq<Seq<char>>,
    p: Seq<char>,
    from: Seq<char>,
) -> bool {
    slot_free(disk, orphans, used, p, from) == Ok::<bool, Seq<char>>(false)
}

/// Whether a path is on disk.
pub open spec fn there(disk: Seq<Probe>, p: Seq<char>) -> bool {
    exists_on(disk, p) == Ok::<bool, Seq<char>>(true)
}

/// Whether a path is known not to be on disk.
pub open spec fn not_there(disk: Seq<Probe>, p: Seq<char>) -> bool {
    exists_on(disk, p) == Ok::<bool, Seq<char>>(false)
}

/// Whether every numbered variant of `p` is taken.
#[verifier::opaque]
pub open spec fn crowded(
    disk: Seq<Probe>,
    orphans: Seq<Seq<char>>,
    used: Seq<Seq<char>>,
    from: Seq<char>,
    p: Seq<char>,
) -> bool {
    forall|i: int|
        2 <= i < 1000 ==> #[trigger] occupied(disk, orphans, used, variant(p, i), from)
}

proof fn lemma_first_variant(
    disk: Seq<Probe>,
    orphans: Seq<Seq<char>>,
    used: Seq<Seq<char>>,
    from: Seq<char>,
    target: Seq<char>,
    i: int,
)
    requires
        2 <= i <= 1000,
        forall|k: int|
            2 <= k < i ==> #[trigger] occupied(disk, orphans, used, variant(target, k), from),
        first_variant(disk, orphans, used, from, target, i) is Ok,
    ensures
        ({
            let p = first_variant(disk, orphans, used, from, target, i)->Ok_0;
            free(disk, orphans, used, p, from) || (p == target && crowded(
                disk,
                orphans,
                used,
                from,
                target,
            ))
        }),
    decreases 1000 - i,
{
    if i >= 1000 {
        reveal(crowded);
    } else if occupied(disk, orphans, used, variant(target, i), from) {
        lemma_first_variant(disk, orphans, used, from, target, i + 1);
    }
}

/// A file is only ever sent to a free place; should all of the numbered
/// variants be taken, to the place it is bound for.
pub proof fn law_placed_files_go_to_free_places(
    disk: Seq<Probe>,
    orphans: Seq<Seq<char>>,
    used: Seq<Seq<char>>,
    from: Seq<char>,
    target: Seq<char>,
)
    requires
        place(disk, orphans, used, from, target) is Ok,
    ensures
        ({
            let p = place(disk, orphans, used, from, target)->Ok_0;
            free(disk, orphans, used, p, from) || (p == target && crowded(
                disk,
                orphans,
                used,
                from,
                target,
            ))
        }),
{
    reveal(place);
    if occupied(disk, orphans, used, target, from) {
        lemma_first_variant(disk, orphans, used, from, target, 2);
    }
}

/// Whether `to` became path number `n` of those taken when it was given to
/// the file from `from`. It was free then, or all numbered variants of it
/// were taken. The paths in `base` were taken before.
pub open spec fn given_at(
    disk: Seq<Probe>,
    orphans: Seq<Seq<char>>,
    base: Seq<Seq<char>>,
    used: Seq<Seq<char>>,
    from: Seq<char>,
    to: Seq<char>,
    n: int,
) -> bool {
    &&& base.len() <= n < used.len()
    &&& used[n] == to
    &&& free(disk, orphans, used.take(n), to, from) || crowded(
        disk,
        orphans,
        used.take(n),
        from,
        to,
    )
}

/// What holds while tracks are planned: move `i` was given its place as
/// number `mp[i]` of the paths taken, copy `i` as number `cp[i]`. Each has a
/// number of its own, and the paths in `base` stay taken.
pub open spec fn sound(
    disk: Seq<Probe>,
    orphans: Seq<Seq<char>>,
    base: Seq<Seq<char>>,
    w: Work,
    mp: Seq<int>,
    cp: Seq<int>,
) -> bool {
    &&& base.is_prefix_of(w.used)
    &&& mp.len() == w.moves.len()
    &&& cp.len() == w.copies.len()
    &&& forall|i: int|
        0 <= i < mp.len() ==> given_at(
            disk,
            orphans,
            base,
            w.used,
            w.moves[i].from,
            w.moves[i].to,
            #[trigger] mp[i],
        )
    &&& forall|i: int|
        0 <= i < cp.len() ==> given_at(
            disk,
            orphans,
            base,
            w.used,
            w.copies[i].from,
            w.copies[i].to,
            #[trigger] cp[i],
        )
    &&& forall|i: int, j: int| 0 <= i < j < mp.len() ==> #[trigger] mp[i] < #[trigger] mp[j]
    &&& forall|i: int, j: int| 0 <= i < j < cp.len() ==> #[trigger] cp[i] < #[trigger] cp[j]
    &&& forall|i: int, j: int|
        0 <= i < mp.len() && 0 <= j < cp.len() ==> #[trigger] mp[i] != #[trigger] cp[j]
}

/// What holds of every plan. Besides what `sound` says, planned destinations
/// are apart from each other, except where all numbered variants were taken
/// when the later one was given.
pub open spec fn safe(
    disk: Seq<Probe>,
    orphans: Seq<Seq<char>>,
    base: Seq<Seq<char>>,
    w: Work,
    mp: Seq<int>,
    cp: Seq<int>,
) -> bool {
    &&& sound(disk, orphans, base, w, mp, cp)
    &&& forall|i: int, j: int|
        0 <= i < j < w.moves.len() ==> crate::paths::comps((#[trigger] w.moves[i]).to)
            != crate::paths::comps((#[trigger] w.moves[j]).to) || crowded(
            disk,
            orphans,
            w.used.take(mp[j]),
            w.moves[j].from,
            w.moves[j].to,
        )
    &&& forall|i: int, j: int|
        0 <= i < j < w.copies.len() ==> crate::paths::comps((#[trigger] w.copies[i]).to)
            != crate::paths::comps((#[trigger] w.copies[j]).to) || crowded(
            disk,
            orphans,
            w.used.take(cp[j]),
            w.copies[j].from,
            w.copies[j].to,
        )
    &&& forall|i: int, j: int|
        0 <= i < w.moves.len() && 0 <= j < w.copies.len() ==> crate::paths::comps(
            (#[trigger] w.moves[i]).to,
        ) != crate::paths::comps((#[trigger] w.copies[j]).to) || if mp[i] < cp[j] {
            crowded(disk, orphans, w.used.take(cp[j]), w.copies[j].from, w.copies[j].to)
        } else {
            crowded(disk, orphans, w.used.take(mp[i]), w.moves[i].from, w.moves[i].to)
        }
}

proof fn lemma_given_stays(
    disk: Seq<Probe>,
    orphans: Seq<Seq<char>>,
    base: Seq<Seq<char>>,
    used: Seq<Seq<char>>,
    more: Seq<char>,
    from: Seq<char>,
    to: Seq<char>,
    n: int,
)
    requires
        given_at(disk, orphans, base, used, from, to, n),
    ensures
        given_at(disk, orphans, base, used.push(more), from, to, n),
{
    assert(used.push(more).take(n) =~= used.take(n));
}

proof fn lemma_sound_take(
    disk: Seq<Probe>,
    orphans: Seq<Seq<char>>,
    base: Seq<Seq<char>>,
    w: Work,
    w2: Work,
    p: Seq<char>,
    mp: Seq<int>,
    cp: Seq<int>,
)
    requires
        sound(disk, orphans, base, w, mp, cp),
        w2.used == w.used.push(p),
        w2.moves == w.moves,
        w2.copies == w.copies,
    ensures
        sound(disk, orphans, base, w2, mp, cp),
{
    assert forall|i: int| 0 <= i < mp.len() implies given_at(
        disk,
        orphans,
        base,
        w2.used,
        w2.moves[i].from,
        w2.moves[i].to,
        #[trigger] mp[i],
    ) by {
        let m = w.moves[i];
        lemma_given_stays(disk, orphans, base, w.used, p, m.from, m.to, mp[i]);
    }
    assert forall|i: int| 0 <= i < cp.len() implies given_at(
        disk,
        orphans,
        base,
        w2.used,
        w2.copies[i].from,
        w2.copies[i].to,
        #[trigger] cp[i],
    ) by {
        let c = w.copies[i];
        lemma_given_stays(disk, orphans, base, w.used, p, c.from, c.to, cp[i]);
    }
}

proof fn lemma_sound_move(
    disk: Seq<Probe>,
    orphans: Seq<Seq<char>>,
    base: Seq<Seq<char>>,
    w: Work,
    w2: Work,
    m: MoveView,
    mp: Seq<int>,
    cp: Seq<int>,
)
    requires
        sound(disk, orphans, base, w, mp, cp),
        w2.used == w.used.push(m.to),
        w2.moves == w.moves.push(m),
        w2.copies == w.copies,
        free(disk, orphans, w.used, m.to, m.from) || crowded(
            disk,
            orphans,
            w.used,
            m.from,
            m.to,
        ),
    ensures
        sound(disk, orphans, base, w2, mp.push(w.used.len() as int), cp),
{
    let w1 = Work { used: w.used.push(m.to), ..w };
    lemma_sound_take(disk, orphans, base, w, w1, m.to, mp, cp);
    let n = w.used.len() as int;
    let np = mp.push(n);
    assert(w2.used.take(n) =~= w.used);
    assert forall|i: int| 0 <= i < np.len() implies given_at(
        disk,
        orphans,
        base,
        w2.used,
        w2.moves[i].from,
        w2.moves[i].to,
        #[trigger] np[i],
    ) by {
        if i < mp.len() {
            assert(np[i] == mp[i]);
            assert(w2.moves[i] == w1.moves[i]);
        }
    }
    assert forall|i: int| 0 <= i < mp.len() implies #[trigger] mp[i] < n by {}
    assert forall|i: int| 0 <= i < cp.len() implies #[trigger] cp[i] < n by {}
}

proof fn lemma_sound_copy(
    disk: Seq<Probe>,
    orphans: Seq<Seq<char>>,
    base: Seq<Seq<char>>,
    w: Work,
    w2: Work,
    c: CopyView,
    mp: Seq<int>,
    cp: Seq<int>,
)
    requires
        sound(disk, orphans, base, w, mp, cp),
        w2.used == w.used.push(c.to),
        w2.moves == w.moves,
        w2.copies == w.copies.push(c),
        free(disk, orphans, w.used, c.to, c.from) || crowded(
            disk,
            orphans,
            w.used,
            c.from,
            c.to,
        ),
    ensures
        sound(disk, orphans, base, w2, mp, cp.push(w.used.len() as int)),
{
    let w1 = Work { used: w.used.push(c.to), ..w };
    lemma_sound_take(disk, orphans, base, w, w1, c.to, mp, cp);
    let n = w.used.len() as int;
    let np = cp.push(n);
    assert(w2.used.take(n) =~= w.used);
    assert forall|i: int| 0 <= i < np.len() implies given_at(
        disk,
        orphans,
        base,
        w2.used,
        w2.copies[i].from,
        w2.copies[i].to,
        #[trigger] np[i],
    ) by {
        if i < cp.len() {
            assert(np[i] == cp[i]);
            assert(w2.copies[i] == w1.copies[i]);
        }
    }
    assert forall|i: int| 0 <= i < mp.len() implies #[trigger] mp[i] < n by {}
    assert forall|i: int| 0 <= i < cp.len() implies #[trigger] cp[i] < n by {}
}

proof fn lemma_sound_copies(
    disk: Seq<Probe>,
    lib: LibrarySettings,
    orphans: Seq<Seq<char>>,
    base: Seq<Seq<char>>,
    t: OrganizeTrackRow,
    source: Seq<char>,
    cs: Seq<OrganizeCollectionMembership>,
    i: int,
    w: Work,
    mp: Seq<int>,
    cp: Seq<int>,
) -> (np: Seq<int>)
    requires
        sound(disk, orphans, base, w, mp, cp),
        0 <= i,
        copy_steps(disk, lib, orphans, t, source, cs, i, w) is Ok,
    ensures
        sound(
            disk,
            orphans,
            base,
            copy_steps(disk, lib, orphans, t, source, cs, i, w)->Ok_0,
            mp,
            np,
        ),
        copy_steps(disk, lib, orphans, t, source, cs, i, w)->Ok_0.moves == w.moves,
        copy_steps(disk, lib, orphans, t, source, cs, i, w)->Ok_0.missing == w.missing,
    decreases cs.len() - i,
{
    if i < cs.len() {
        reveal(copy_step);
        let next = copy_step(disk, lib, orphans, t, source, cs[i], w)->Ok_0;
        let raw = collection_home(lib, t, cs[i]);
        if there(disk, raw) {
            lemma_sound_take(disk, orphans, base, w, next, raw, mp, cp);
            lemma_sound_copies(disk, lib, orphans, base, t, source, cs, i + 1, next, mp, cp)
        } else {
            law_placed_files_go_to_free_places(disk, orphans, w.used, source, raw);
            lemma_sound_copy(disk, orphans, base, w, next, next.copies.last(), mp, cp);
            lemma_sound_copies(
                disk,
                lib,
                orphans,
                base,
                t,
                source,
                cs,
                i + 1,
                next,
                mp,
                cp.push(w.used.len() as int),
            )
        }
    } else {
        cp
    }
}

/// Whether a planned move is of the row `t`: its file is on disk and not where
/// it belongs.
pub open spec fn is_move_of(
    disk: Seq<Probe>,
    lib: LibrarySettings,
    t: OrganizeTrackRow,
    m: MoveView,
) -> bool {
    &&& m.track_id == t.id
    &&& m.from == t.file_path@
    &&& there(disk, m.from)
    &&& crate::paths::comps(m.from) != crate::paths::comps(primary_home(lib, t))
    &&& crate::paths::comps(m.from) != crate::paths::comps(m.to)
}

/// Whether a planned copy is of the row `t`: its file is on disk, and the copy
/// is for one of the collections that it is copied for.
pub open spec fn is_copy_of(disk: Seq<Probe>, t: OrganizeTrackRow, c: CopyView) -> bool {
    &&& c.track_id == t.id
    &&& there(disk, t.file_path@)
    &&& exists|j: int|
        0 <= j < copied_for(t).len() && (#[trigger] copied_for(t)[j]).id == c.collection_id
            && copied_for(t)[j].name@ == c.collection_name
}

/// Whether move `k` is of row `mr[k]` and copy `k` of row `cr[k]`, all of them
/// among the first `n` rows. No two moves are of one row.
pub open spec fn of_rows(
    disk: Seq<Probe>,
    lib: LibrarySettings,
    ts: Seq<OrganizeTrackRow>,
    w: Work,
    mr: Seq<int>,
    cr: Seq<int>,
    n: int,
) -> bool {
    &&& mr.len() == w.moves.len()
    &&& cr.len() == w.copies.len()
    &&& forall|k: int|
        0 <= k < mr.len() ==> 0 <= #[trigger] mr[k] < n && is_move_of(
            disk,
            lib,
            ts[mr[k]],
            w.moves[k],
        )
    &&& forall|k: int|
        0 <= k < cr.len() ==> 0 <= #[trigger] cr[k] < n && is_copy_of(
            disk,
            ts[cr[k]],
            w.copies[k],
        )
    &&& forall|k: int, m: int| 0 <= k < m < mr.len() ==> #[trigger] mr[k] < #[trigger] mr[m]
}

/// The tracks from `i` on whose file is not on disk.
pub open spec fn absent(disk: Seq<Probe>, ts: Seq<OrganizeTrackRow>, i: int) -> Seq<
    (i64, Seq<char>, Seq<char>),
>
    decreases ts.len() - i,
{
    if i < 0 || i >= ts.len() {
        Seq::empty()
    } else if not_there(disk, ts[i].file_path@) {
        seq![(ts[i].id, ts[i].file_path@, ts[i].title@)] + absent(disk, ts, i + 1)
    } else {
        absent(disk, ts, i + 1)
    }
}

proof fn lemma_sound_tracks(
    disk: Seq<Probe>,
    lib: LibrarySettings,
    orphans: Seq<Seq<char>>,
    base: Seq<Seq<char>>,
    ts: Seq<OrganizeTrackRow>,
    i: int,
    w: Work,
    mp: Seq<int>,
    cp: Seq<int>,
) -> (at: (Seq<int>, Seq<int>))
    requires
        sound(disk, orphans, base, w, mp, cp),
        0 <= i,
        track_steps(disk, lib, orphans, ts, i, w) is Ok,
    ensures
        ({
            let end = track_steps(disk, lib, orphans, ts, i, w)->Ok_0;
            &&& sound(disk, orphans, base, end, at.0, at.1)
            &&& end.missing == w.missing + absent(disk, ts, i)
            &&& end.moves.len() + end.missing.len() <= w.moves.len() + w.missing.len() + (if i < ts.len() {
                ts.len() - i
            } else {
                0
            })
        }),
    decreases ts.len() - i,
{
    if i < ts.len() {
        let t = ts[i];
        let next = track_step(disk, lib, orphans, t, w)->Ok_0;
        reveal(track_step);
        if not_there(disk, t.file_path@) {
            assert((w.missing.push((t.id, t.file_path@, t.title@))) + absent(disk, ts, i + 1)
                =~= w.missing + absent(disk, ts, i));
            lemma_sound_tracks(disk, lib, orphans, base, ts, i + 1, next, mp, cp)
        } else {
            reveal(move_step);
            let (moved, at) = move_step(disk, lib, orphans, t, w)->Ok_0;
            let from = t.file_path@;
            let goal = primary_home(lib, t);
            let mut mp1 = mp;
            if crate::paths::comps(from) != crate::paths::comps(goal) {
                law_placed_files_go_to_free_places(disk, orphans, w.used, from, goal);
                if crate::paths::comps(from) == crate::paths::comps(at) {
                    lemma_sound_take(disk, orphans, base, w, moved, at, mp, cp);
                } else {
                    let m = moved.moves.last();
                    lemma_sound_move(disk, orphans, base, w, moved, m, mp, cp);
                    mp1 = mp.push(w.used.len() as int);
                }
            }
            let recorded = album_step(t, at, moved);
            assert(sound(disk, orphans, base, recorded, mp1, cp));
            let cp1 = lemma_sound_copies(
                disk,
                lib,
                orphans,
                base,
                t,
                at,
                copied_for(t),
                0,
                recorded,
                mp1,
                cp,
            );
            lemma_sound_tracks(disk, lib, orphans, base, ts, i + 1, next, mp1, cp1)
        }
    } else {
        assert(w.missing + Seq::<(i64, Seq<char>, Seq<char>)>::empty() =~= w.missing);
        (mp, cp)
    }
}

proof fn lemma_rows_of_copies(
    disk: Seq<Probe>,
    lib: LibrarySettings,
    orphans: Seq<Seq<char>>,
    ts: Seq<OrganizeTrackRow>,
    row: int,
    source: Seq<char>,
    i: int,
    w: Work,
    mr: Seq<int>,
    cr: Seq<int>,
) -> (nr: Seq<int>)
    requires
        0 <= row < ts.len(),
        0 <= i,
        there(disk, ts[row].file_path@),
        of_rows(disk, lib, ts, w, mr, cr, row + 1),
        copy_steps(disk, lib, orphans, ts[row], source, copied_for(ts[row]), i, w) is Ok,
    ensures
        of_rows(
            disk,
            lib,
            ts,
            copy_steps(disk, lib, orphans, ts[row], source, copied_for(ts[row]), i, w)->Ok_0,
            mr,
            nr,
            row + 1,
        ),
    decreases copied_for(ts[row]).len() - i,
{
    let t = ts[row];
    let cs = copied_for(t);
    if i < cs.len() {
        reveal(copy_step);
        let next = copy_step(disk, lib, orphans, t, source, cs[i], w)->Ok_0;
        if there(disk, collection_home(lib, t, cs[i])) {
            lemma_rows_of_copies(disk, lib, orphans, ts, row, source, i + 1, next, mr, cr)
        } else {
            let nr = cr.push(row);
            assert(is_copy_of(disk, t, next.copies.last())) by {
                assert(cs[i].id == next.copies.last().collection_id);
            }
            assert forall|k: int| 0 <= k < nr.len() implies 0 <= #[trigger] nr[k] < row + 1
                && is_copy_of(disk, ts[nr[k]], next.copies[k]) by {
                if k < cr.len() {
                    assert(nr[k] == cr[k]);
                    assert(next.copies[k] == w.copies[k]);
                }
            }
            lemma_rows_of_copies(disk, lib, orphans, ts, row, source, i + 1, next, mr, nr)
        }
    } else {
        cr
    }
}

proof fn lemma_rows_of_tracks(
    disk: Seq<Probe>,
    lib: LibrarySettings,
    orphans: Seq<Seq<char>>,
    ts: Seq<OrganizeTrackRow>,
    i: int,
    w: Work,
    mr: Seq<int>,
    cr: Seq<int>,
) -> (at: (Seq<int>, Seq<int>))
    requires
        0 <= i <= ts.len(),
        of_rows(disk, lib, ts, w, mr, cr, i),
        track_steps(disk, lib, orphans, ts, i, w) is Ok,
    ensures
        of_rows(
            disk,
            lib,
            ts,
            track_steps(disk, lib, orphans, ts, i, w)->Ok_0,
            at.0,
            at.1,
            ts.len() as int,
        ),
    decreases ts.len() - i,
{
    if i < ts.len() {
        let t = ts[i];
        let next = track_step(disk, lib, orphans, t, w)->Ok_0;
        reveal(track_step);
        if not_there(disk, t.file_path@) {
            assert(of_rows(disk, lib, ts, next, mr, cr, i + 1));
            lemma_rows_of_tracks(disk, lib, orphans, ts, i + 1, next, mr, cr)
        } else {
            reveal(move_step);
            let (moved, at) = move_step(disk, lib, orphans, t, w)->Ok_0;
            let recorded = album_step(t, at, moved);
            let nr = if moved.moves.len() > w.moves.len() { mr.push(i) } else { mr };
            assert forall|k: int| 0 <= k < nr.len() implies 0 <= #[trigger] nr[k] < i + 1
                && is_move_of(disk, lib, ts[nr[k]], recorded.moves[k]) by {
                if k < mr.len() {
                    assert(nr[k] == mr[k]);
                    assert(recorded.moves[k] == w.moves[k]);
                }
            }
            assert(of_rows(disk, lib, ts, recorded, nr, cr, i + 1));
            let nc = lemma_rows_of_copies(disk, lib, orphans, ts, i, at, 0, recorded, nr, cr);
            lemma_rows_of_tracks(disk, lib, orphans, ts, i + 1, next, nr, nc)
        }
    } else {
        (mr, cr)
    }
}

/// A path that was taken before is not free.
proof fn lemma_taken_is_crowded(
    disk: Seq<Probe>,
    orphans: Seq<Seq<char>>,
    base: Seq<Seq<char>>,
    used: Seq<Seq<char>>,
    from: Seq<char>,
    to: Seq<char>,
    n: int,
    k: int,
)
    requires
        given_at(disk, orphans, base, used, from, to, n),
        0 <= k < n,
        crate::paths::comps(used[k]) == crate::paths::comps(to),
    ensures
        crowded(disk, orphans, used.take(n), from, to),
{
    assert(used.take(n)[k] == used[k]);
    assert(names(used.take(n), to));
}

proof fn lemma_sound_is_safe(
    disk: Seq<Probe>,
    orphans: Seq<Seq<char>>,
    base: Seq<Seq<char>>,
    w: Work,
    mp: Seq<int>,
    cp: Seq<int>,
)
    requires
        sound(disk, orphans, base, w, mp, cp),
    ensures
        safe(disk, orphans, base, w, mp, cp),
{
    let u = w.used;
    assert forall|i: int, j: int| 0 <= i < j < w.moves.len() implies crate::paths::comps(
        (#[trigger] w.moves[i]).to,
    ) != crate::paths::comps((#[trigger] w.moves[j]).to) || crowded(
        disk,
        orphans,
        u.take(mp[j]),
        w.moves[j].from,
        w.moves[j].to,
    ) by {
        let (a, b) = (w.moves[i], w.moves[j]);
        assert(mp[i] < mp[j]);
        if crate::paths::comps(a.to) == crate::paths::comps(b.to) {
            lemma_taken_is_crowded(disk, orphans, base, u, b.from, b.to, mp[j], mp[i]);
        }
    }
    assert forall|i: int, j: int| 0 <= i < j < w.copies.len() implies crate::paths::comps(
        (#[trigger] w.copies[i]).to,
    ) != crate::paths::comps((#[trigger] w.copies[j]).to) || crowded(
        disk,
        orphans,
        u.take(cp[j]),
        w.copies[j].from,
        w.copies[j].to,
    ) by {
        let (a, b) = (w.copies[i], w.copies[j]);
        assert(cp[i] < cp[j]);
        if crate::paths::comps(a.to) == crate::paths::comps(b.to) {
            lemma_taken_is_crowded(disk, orphans, base, u, b.from, b.to, cp[j], cp[i]);
        }
    }
    assert forall|i: int, j: int|
        0 <= i < w.moves.len() && 0 <= j < w.copies.len() implies crate::paths::comps(
        (#[trigger] w.moves[i]).to,
    ) != crate::paths::comps((#[trigger] w.copies[j]).to) || if mp[i] < cp[j] {
        crowded(disk, orphans, u.take(cp[j]), w.copies[j].from, w.copies[j].to)
    } else {
        crowded(disk, orphans, u.take(mp[i]), w.moves[i].from, w.moves[i].to)
    } by {
        let (a, b) = (w.moves[i], w.copies[j]);
        assert(mp[i] != cp[j]);
        if crate::paths::comps(a.to) == crate::paths::comps(b.to) {
            if mp[i] < cp[j] {
                lemma_taken_is_crowded(disk, orphans, base, u, b.from, b.to, cp[j], mp[i]);
            } else {
                lemma_taken_is_crowded(disk, orphans, base, u, a.from, a.to, mp[i], cp[j]);
            }
        }
    }
}

/// Every plan is safe. Each planned destination was free when it was given:
/// no path that was taken by then, and no unrelated file on disk, unless all
/// numbered variants of it were taken at that time. So no two destinations
/// are one path but for such a case. Only tracks that are on disk and not
/// where they belong are moved, and no row is moved twice. Only tracks that
/// are on disk are copied. Missing sources are just the tracks that are not
/// on disk.
pub proof fn law_plan_is_safe(
    disk: Seq<Probe>,
    lib: LibrarySettings,
    orphans: Seq<Seq<char>>,
    ts: Seq<OrganizeTrackRow>,
    all: Seq<Seq<char>>,
    copies: Seq<(i64, i64, String)>,
)
    requires
        planned(disk, lib, orphans, ts, all, copies) is Ok,
    ensures
        ({
            let w = planned(disk, lib, orphans, ts, all, copies)->Ok_0;
            let base = reserved(disk, lib, ts, all, copies)->Ok_0;
            &&& exists|mp: Seq<int>, cp: Seq<int>| #[trigger] safe(disk, orphans, base, w, mp, cp)
            &&& exists|mr: Seq<int>, cr: Seq<int>| #[trigger]
                of_rows(disk, lib, ts, w, mr, cr, ts.len() as int)
            &&& w.missing == absent(disk, ts, 0)
            &&& w.moves.len() + w.missing.len() <= ts.len()
        }),
{
    let base = reserved(disk, lib, ts, all, copies)->Ok_0;
    let start = empty_work(base);
    let none = Seq::<int>::empty();
    let (mp, cp) = lemma_sound_tracks(disk, lib, orphans, base, ts, 0, start, none, none);
    let w = planned(disk, lib, orphans, ts, all, copies)->Ok_0;
    lemma_sound_is_safe(disk, orphans, base, w, mp, cp);
    let (mr, cr) = lemma_rows_of_tracks(disk, lib, orphans, ts, 0, start, none, none);
    assert(of_rows(disk, lib, ts, w, mr, cr, ts.len() as int));
    assert(Seq::<(i64, Seq<char>, Seq<char>)>::empty() + absent(disk, ts, 0) =~= absent(disk, ts, 0));
}

proof fn lemma_names_grow(list: Seq<Seq<char>>, more: Seq<char>, p: Seq<char>)
    ensures
        names(list, p) ==> names(list.push(more), p),
        names(list.push(more), more),
{
    if names(list, p) {
        let i = choose|i: int|
            0 <= i < list.len() && crate::paths::comps(#[trigger] list[i]) == crate::paths::comps(p);
        assert(list.push(more)[i] == list[i]);
    }
    assert(list.push(more)[list.len() as int] == more);
}

proof fn lemma_reserved(
    disk: Seq<Probe>,
    lib: LibrarySettings,
    ts: Seq<OrganizeTrackRow>,
    i: int,
    used: Seq<Seq<char>>,
)
    requires
        0 <= i,
        reserve_steps(disk, lib, ts, i, used) is Ok,
    ensures
        ({
            let end = reserve_steps(disk, lib, ts, i, used)->Ok_0;
            &&& forall|p: Seq<char>| names(used, p) ==> #[trigger] names(end, p)
            &&& forall|k: int|
                i <= k < ts.len() && there(disk, (#[trigger] ts[k]).file_path@)
                    && crate::paths::comps(ts[k].file_path@) == crate::paths::comps(
                    primary_home(lib, ts[k]),
                ) ==> names(end, ts[k].file_path@)
        }),
    decreases ts.len() - i,
{
    if i < ts.len() {
        let goal = primary_home(lib, ts[i]);
        let here = there(disk, ts[i].file_path@) && crate::paths::comps(ts[i].file_path@)
            == crate::paths::comps(goal);
        let next = if here { used.push(goal) } else { used };
        lemma_reserved(disk, lib, ts, i + 1, next);
        if here {
            assert forall|p: Seq<char>| names(used, p) implies #[trigger] names(next, p) by {
                lemma_names_grow(used, goal, p);
            }
            assert(next[used.len() as int] == goal);
            assert(names(next, ts[i].file_path@));
        }
    }
}

/// A track that is where it belongs owns its place, whatever the order of the
/// rows: no other track is moved onto it, unless all numbered variants of its
/// path were taken when the other was given its place.
pub proof fn law_tracks_in_place_stay(
    disk: Seq<Probe>,
    lib: LibrarySettings,
    orphans: Seq<Seq<char>>,
    ts: Seq<OrganizeTrackRow>,
    all: Seq<Seq<char>>,
    copies: Seq<(i64, i64, String)>,
    k: int,
    m: int,
)
    requires
        planned(disk, lib, orphans, ts, all, copies) is Ok,
        0 <= k < ts.len(),
        there(disk, ts[k].file_path@),
        crate::paths::comps(ts[k].file_path@) == crate::paths::comps(primary_home(lib, ts[k])),
        0 <= m < planned(disk, lib, orphans, ts, all, copies)->Ok_0.moves.len(),
    ensures
        ({
            let w = planned(disk, lib, orphans, ts, all, copies)->Ok_0;
            let base = reserved(disk, lib, ts, all, copies)->Ok_0;
            let from = w.moves[m].from;
            let to = w.moves[m].to;
            exists|n: int| #[trigger]
                given_at(disk, orphans, base, w.used, from, to, n) && (crate::paths::comps(to)
                    != crate::paths::comps(ts[k].file_path@) || crowded(
                    disk,
                    orphans,
                    w.used.take(n),
                    from,
                    to,
                ))
        }),
{
    law_plan_is_safe(disk, lib, orphans, ts, all, copies);
    let w = planned(disk, lib, orphans, ts, all, copies)->Ok_0;
    let base = reserved(disk, lib, ts, all, copies)->Ok_0;
    let start = claimed_by_others(all, ts, all.len() as int) + claimed_by_copies(
        copies,
        ts,
        copies.len() as int,
    );
    lemma_reserved(disk, lib, ts, 0, start);
    let here = ts[k].file_path@;
    assert(names(base, here));
    let (mp, cp) = choose|mp: Seq<int>, cp: Seq<int>| #[trigger]
        safe(disk, orphans, base, w, mp, cp);
    let mv = w.moves[m];
    let n = mp[m];
    assert(given_at(disk, orphans, base, w.used, mv.from, mv.to, n));
    if crate::paths::comps(mv.to) == crate::paths::comps(here) {
        let i = choose|i: int|
            0 <= i < base.len() && crate::paths::comps(#[trigger] base[i]) == crate::paths::comps(here);
        assert(w.used[i] == base[i]);
        assert(0 <= i < n);
        lemma_taken_is_crowded(disk, orphans, base, w.used, mv.from, mv.to, n, i);
    }
    assert(given_at(disk, orphans, base, w.used, mv.from, mv.to, n) && (crate::paths::comps(mv.to)
        != crate::paths::comps(here) || crowded(disk, orphans, w.used.take(n), mv.from, mv.to)));
}

// ---------------------------------------------------------------------------
// Laws of places

/// Templates are filled with what the row of a track says: each variable with
/// its own column. The year reads back, and the extension is that of the file.
pub proof fn law_templates_are_filled_from_the_row(t: OrganizeTrackRow)
    ensures
        ({
            let v = vars_of(t);
            &&& v.title == t.title@
            &&& v.artist == (if t.artist is Some { t.artist->0@ } else { ""@ })
            &&& v.album_artist == (if t.album_artist is Some { t.album_artist->0@ } else { ""@ })
            &&& v.album == (if t.album_title is Some { t.album_title->0@ } else { ""@ })
            &&& v.genre == (if t.genre is Some { t.genre->0@ } else { ""@ })
            &&& v.label == (if t.label is Some { t.label->0@ } else { ""@ })
            &&& t.track_number is Some ==> v.track == t.track_number->0
            &&& t.track_number is None ==> v.track == 0
            &&& v.disc == t.disc_number
            &&& t.year is None ==> v.year == ""@
            &&& t.year is Some && t.year->0 >= 0 ==> crate::text::digits_value(v.year) == t.year->0
            &&& crate::paths::ext_of_path(t.file_path@) is Some ==> v.ext == crate::text::lowercased(
                crate::paths::ext_of_path(t.file_path@)->0,
            )
        }),
{
    reveal_strlit("");
    assert(""@ =~= Seq::<char>::empty());
    if t.year is Some && t.year->0 >= 0 {
        crate::text::law_decimals_read_back(t.year->0 as nat);
    }
}

/// The place of a track below the music directory, by a template.
pub open spec fn filed(
    lib: LibrarySettings,
    t: OrganizeTrackRow,
    template: Seq<char>,
) -> Seq<char> {
    crate::paths::joined(lib.music_dir@, crate::template::rendered(template, vars_of(t)))
}

/// A track of an album is filed by the template for albums: that of one disc
/// where the album has no more, else that of several. Without album and
/// collection it is filed by the template for loose tracks. All this holds of
/// tracks that have a number or an artist.
pub proof fn law_tracks_are_filed_by_their_template(lib: LibrarySettings, t: OrganizeTrackRow)
    requires
        (t.track_number is Some && t.track_number->0 > 0) || (t.artist is Some
            && crate::text::trimmed(t.artist->0@).len() > 0) || (t.album_artist is Some
            && crate::text::trimmed(t.album_artist->0@).len() > 0),
    ensures
        t.album_title is Some && t.disc_total is None ==> primary_home(lib, t) == filed(
            lib,
            t,
            lib.path_template_single_disc@,
        ),
        t.album_title is Some && t.disc_total is Some && t.disc_total->0 <= 1 ==> primary_home(
            lib,
            t,
        ) == filed(lib, t, lib.path_template_single_disc@),
        t.album_title is Some && t.disc_total is Some && t.disc_total->0 > 1 ==> primary_home(
            lib,
            t,
        ) == filed(lib, t, lib.path_template@),
        t.album_title is None && t.collections@.len() == 0 ==> primary_home(lib, t) == filed(
            lib,
            t,
            lib.loose_path_template@,
        ),
{
    reveal(primary_home);
}

/// A track that has neither a number nor an artist keeps the name of its file:
/// it goes into the directory that its template gives, under that name.
pub proof fn law_unnamed_tracks_keep_their_file_name(lib: LibrarySettings, t: OrganizeTrackRow)
    requires
        t.track_number is None,
        t.artist is None,
        t.album_artist is None,
        t.album_title is None,
        t.collections@.len() == 0,
        crate::paths::name_of_path(t.file_path@) is Some,
        crate::paths::parent_of(filed(lib, t, lib.loose_path_template@)) is Some,
    ensures
        primary_home(lib, t) == crate::paths::joined(
            crate::paths::parent_of(filed(lib, t, lib.loose_path_template@))->0,
            crate::paths::name_of_path(t.file_path@)->0,
        ),
{
    reveal(primary_home);
    assert(crate::text::trimmed(Seq::<char>::empty()).len() == 0);
}

/// The copy of a track for a collection is filed by the collection's own
/// template, or by that of the library where it has none, with the name of
/// the collection and the track's position in it.
pub proof fn law_copies_are_filed_by_their_collection(
    lib: LibrarySettings,
    t: OrganizeTrackRow,
    c: OrganizeCollectionMembership,
)
    requires
        t.track_number is Some && t.track_number->0 > 0,
    ensures
        ({
            let v = crate::template::Vars {
                collection: c.name@,
                position: c.effective_position,
                ..vars_of(t)
            };
            &&& c.path_template is Some ==> collection_home(lib, t, c) == crate::paths::joined(
                lib.music_dir@,
                crate::template::rendered(c.path_template->0@, v),
            )
            &&& c.path_template is None ==> collection_home(lib, t, c) == crate::paths::joined(
                lib.music_dir@,
                crate::template::rendered(lib.collection_path_template@, v),
            )
        }),
{
    reveal(collection_home);
}

proof fn lemma_inserted_by_id(
    s: Seq<OrganizeCollectionMembership>,
    m: OrganizeCollectionMembership,
)
    requires
        forall|i: int, j: int| 0 <= i < j < s.len() ==> (#[trigger] s[i]).id <= (#[trigger] s[j]).id,
    ensures
        ({
            let r = insert_by_id(s, m);
            &&& r.len() == s.len() + 1
            &&& forall|i: int, j: int|
                0 <= i < j < r.len() ==> (#[trigger] r[i]).id <= (#[trigger] r[j]).id
            &&& forall|x: OrganizeCollectionMembership| #[trigger]
                r.contains(x) <==> s.contains(x) || x == m
        }),
    decreases s.len(),
{
    let r = insert_by_id(s, m);
    if s.len() == 0 || s.last().id <= m.id {
        assert(r == s.push(m));
        assert forall|i: int, j: int| 0 <= i < j < r.len() implies (#[trigger] r[i]).id <= (
        #[trigger] r[j]).id by {
            if j == s.len() && i < s.len() - 1 {
                assert(s[i].id <= s[s.len() - 1].id);
            }
        }
        assert forall|x: OrganizeCollectionMembership| #[trigger] r.contains(x) <==> s.contains(x) || x
            == m by {
            if s.contains(x) {
                assert(r[s.index_of(x)] == x);
            }
            assert(r[s.len() as int] == m);
        }
    } else {
        let d = s.drop_last();
        assert forall|i: int, j: int| 0 <= i < j < d.len() implies (#[trigger] d[i]).id <= (
        #[trigger] d[j]).id by {
            assert(d[i] == s[i] && d[j] == s[j]);
        }
        lemma_inserted_by_id(d, m);
        let u = insert_by_id(d, m);
        assert(r == u.push(s.last()));
        assert forall|i: int, j: int| 0 <= i < j < r.len() implies (#[trigger] r[i]).id <= (
        #[trigger] r[j]).id by {
            if j == u.len() {
                assert(u.contains(u[i]));
                if d.contains(u[i]) {
                    let x = d.index_of(u[i]);
                    assert(s[x].id <= s[s.len() - 1].id);
                }
            } else {
                assert(r[i] == u[i] && r[j] == u[j]);
            }
        }
        assert forall|x: OrganizeCollectionMembership| #[trigger] r.contains(x) <==> s.contains(x) || x
            == m by {
            assert(u.contains(x) <==> d.contains(x) || x == m);
            if r.contains(x) {
                let k = r.index_of(x);
                if k < u.len() {
                    assert(u[k] == x);
                    if d.contains(x) {
                        assert(s[d.index_of(x)] == x);
                    }
                } else {
                    assert(s[s.len() - 1] == x);
                }
            }
            if u.contains(x) {
                assert(r[u.index_of(x)] == x);
            }
            if s.contains(x) && !d.contains(x) {
                let k = s.index_of(x);
                if k < d.len() {
                    assert(d[k] == x);
                }
                assert(r[u.len() as int] == x);
            }
        }
    }
}

proof fn lemma_by_id_facts(s: Seq<OrganizeCollectionMembership>)
    ensures
        ({
            let r = by_id(s);
            &&& r.len() == s.len()
            &&& forall|i: int, j: int|
                0 <= i < j < r.len() ==> (#[trigger] r[i]).id <= (#[trigger] r[j]).id
            &&& forall|x: OrganizeCollectionMembership| #[trigger] r.contains(x) <==> s.contains(x)
        }),
    decreases s.len(),
{
    if s.len() > 0 {
        let d = s.drop_last();
        lemma_by_id_facts(d);
        lemma_inserted_by_id(by_id(d), s.last());
        let r = by_id(s);
        assert forall|x: OrganizeCollectionMembership| #[trigger] r.contains(x) <==> s.contains(x) by {
            assert(by_id(d).contains(x) <==> d.contains(x));
            if d.contains(x) {
                assert(s[d.index_of(x)] == x);
            }
            if s.contains(x) && x != s.last() {
                let k = s.index_of(x);
                assert(d[k] == x);
            }
            assert(s[s.len() - 1] == s.last());
        }
    }
}

/// A track without album whose tracks are in collections is filed in the
/// oldest of them, and copied for the others; a track of an album is copied
/// for all.
pub proof fn law_loose_tracks_live_in_their_oldest_collection(
    lib: LibrarySettings,
    t: OrganizeTrackRow,
    k: int,
)
    requires
        0 <= k < t.collections@.len(),
        forall|j: int|
            0 <= j < t.collections@.len() && j != k ==> (#[trigger] t.collections@[j]).id
                > t.collections@[k].id,
    ensures
        t.album_title is None ==> primary_home(lib, t) == collection_home(
            lib,
            t,
            t.collections@[k],
        ),
        t.album_title is None ==> also(t) == Some(
            (t.collections@[k].id, t.collections@[k].name@),
        ),
        t.album_title is None ==> copied_for(t).len() == t.collections@.len() - 1,
        t.album_title is Some ==> copied_for(t).len() == t.collections@.len() && also(t) is None,
        forall|j: int|
            0 <= j < t.collections@.len() ==> (copied_for(t).contains(#[trigger] t.collections@[j])
                <==> t.album_title is Some || j != k),
{
    reveal(primary_home);
    let s = t.collections@;
    lemma_by_id_facts(s);
    let r = by_id(s);
    assert(s.contains(s[k]));
    assert(r.contains(s[k]));
    let x = r.index_of(s[k]);
    assert(r.contains(r[0]));
    let y = s.index_of(r[0]);
    assert(r[0] == s[k]) by {
        if y != k {
            assert(s[y].id > s[k].id);
            if x > 0 {
                assert(r[0].id <= r[x].id);
            }
        }
    }
    assert forall|j: int| 0 <= j < s.len() implies (copied_for(t).contains(#[trigger] s[j])
        <==> t.album_title is Some || j != k) by {
        assert(s.contains(s[j]));
        assert(r.contains(s[j]));
        if t.album_title is None {
            let c = copied_for(t);
            assert(c == r.skip(1));
            if j != k {
                let z = r.index_of(s[j]);
                assert(s[j].id > s[k].id);
                assert(z != 0);
                assert(c[z - 1] == s[j]);
            } else if c.contains(s[k]) {
                let z = c.index_of(s[k]);
                assert(r[z + 1] == s[k]);
                lemma_id_once(s, k, r, z + 1);
            }
        }
    }
}

/// Sorting does not double a membership: where one id is the least and only
/// one has it, it comes once.
proof fn lemma_id_once(
    s: Seq<OrganizeCollectionMembership>,
    k: int,
    r: Seq<OrganizeCollectionMembership>,
    z: int,
)
    requires
        r == by_id(s),
        0 <= k < s.len(),
        forall|j: int| 0 <= j < s.len() && j != k ==> (#[trigger] s[j]).id > s[k].id,
        0 < z < r.len(),
    ensures
        r[z] != s[k],
{
    if r[z] == s[k] {
        lemma_by_id_facts(s);
        let id = s[k].id;
        lemma_count_ids(s, id);
        lemma_count_one(s, k, id, s.len() as int);
        assert(r[0].id <= r[z].id);
        assert(r.contains(r[0]));
        let y = s.index_of(r[0]);
        assert(s[y].id <= id);
        assert(y == k);
        lemma_count_two(r, 0, z, id, r.len() as int);
    }
}

/// How many of the first `n` have this id.
spec fn with_id(s: Seq<OrganizeCollectionMembership>, id: i64, n: int) -> nat
    decreases n,
{
    if n <= 0 { 0 } else { with_id(s, id, n - 1) + if s[n - 1].id == id { 1nat } else { 0nat } }
}

proof fn lemma_with_id_prefix(
    s: Seq<OrganizeCollectionMembership>,
    u: Seq<OrganizeCollectionMembership>,
    id: i64,
    n: int,
)
    requires
        0 <= n <= s.len(),
        n <= u.len(),
        forall|i: int| 0 <= i < n ==> s[i] == u[i],
    ensures
        with_id(s, id, n) == with_id(u, id, n),
    decreases n,
{
    if n > 0 {
        lemma_with_id_prefix(s, u, id, n - 1);
    }
}

proof fn lemma_count_inserted(
    s: Seq<OrganizeCollectionMembership>,
    m: OrganizeCollectionMembership,
    id: i64,
)
    ensures
        insert_by_id(s, m).len() == s.len() + 1,
        with_id(insert_by_id(s, m), id, s.len() as int + 1) == with_id(s, id, s.len() as int) + (
        if m.id == id { 1nat } else { 0nat }),
    decreases s.len(),
{
    let r = insert_by_id(s, m);
    let n = s.len() as int;
    if s.len() == 0 || s.last().id <= m.id {
        lemma_with_id_prefix(r, s, id, n);
    } else {
        let d = s.drop_last();
        lemma_count_inserted(d, m, id);
        let u = insert_by_id(d, m);
        assert(r == u.push(s.last()));
        lemma_with_id_prefix(r, u, id, n);
        lemma_with_id_prefix(s, d, id, n - 1);
    }
}

proof fn lemma_count_ids(s: Seq<OrganizeCollectionMembership>, id: i64)
    ensures
        by_id(s).len() == s.len(),
        with_id(by_id(s), id, s.len() as int) == with_id(s, id, s.len() as int),
    decreases s.len(),
{
    if s.len() > 0 {
        let d = s.drop_last();
        lemma_count_ids(d, id);
        lemma_count_inserted(by_id(d), s.last(), id);
        lemma_with_id_prefix(s, d, id, s.len() - 1);
    }
}

proof fn lemma_count_one(s: Seq<OrganizeCollectionMembership>, k: int, id: i64, n: int)
    requires
        0 <= k < s.len(),
        0 <= n <= s.len(),
        forall|j: int| 0 <= j < s.len() && j != k ==> (#[trigger] s[j]).id != id,
    ensures
        with_id(s, id, n) <= 1,
        n <= k ==> with_id(s, id, n) == 0,
    decreases n,
{
    if n > 0 {
        lemma_count_one(s, k, id, n - 1);
    }
}

proof fn lemma_count_two(s: Seq<OrganizeCollectionMembership>, i: int, j: int, id: i64, n: int)
    requires
        0 <= i < j < s.len(),
        s[i].id == id,
        s[j].id == id,
        0 <= n <= s.len(),
    ensures
        n > i ==> with_id(s, id, n) >= 1,
        n > j ==> with_id(s, id, n) >= 2,
    decreases n,
{
    if n > 0 {
        lemma_count_two(s, i, j, id, n - 1);
    }
}

/// A file goes to its target where that is free, and else to the first of the
/// numbered variants that is.
pub proof fn law_the_first_free_place_is_taken(
    disk: Seq<Probe>,
    orphans: Seq<Seq<char>>,
    used: Seq<Seq<char>>,
    from: Seq<char>,
    target: Seq<char>,
    n: int,
)
    ensures
        free(disk, orphans, used, target, from) ==> place(disk, orphans, used, from, target) == Ok::<
            Seq<char>,
            Seq<char>,
        >(target),
        2 <= n < 1000 && occupied(disk, orphans, used, target, from) && (forall|k: int|
            2 <= k < n ==> #[trigger] occupied(disk, orphans, used, variant(target, k), from)) && free(
            disk,
            orphans,
            used,
            variant(target, n),
            from,
        ) ==> place(disk, orphans, used, from, target) == Ok::<Seq<char>, Seq<char>>(
            variant(target, n),
        ),
{
    reveal(place);
    if 2 <= n < 1000 && occupied(disk, orphans, used, target, from) && (forall|k: int|
        2 <= k < n ==> #[trigger] occupied(disk, orphans, used, variant(target, k), from)) && free(
        disk,
        orphans,
        used,
        variant(target, n),
        from,
    ) {
        lemma_reaches_variant(disk, orphans, used, from, target, 2, n);
    }
}

proof fn lemma_reaches_variant(
    disk: Seq<Probe>,
    orphans: Seq<Seq<char>>,
    used: Seq<Seq<char>>,
    from: Seq<char>,
    target: Seq<char>,
    i: int,
    n: int,
)
    requires
        2 <= i <= n < 1000,
        forall|k: int|
            i <= k < n ==> #[trigger] occupied(disk, orphans, used, variant(target, k), from),
        free(disk, orphans, used, variant(target, n), from),
    ensures
        first_variant(disk, orphans, used, from, target, i) == Ok::<Seq<char>, Seq<char>>(
            variant(target, n),
        ),
    decreases n - i,
{
    if i < n {
        assert(occupied(disk, orphans, used, variant(target, i), from));
        lemma_reaches_variant(disk, orphans, used, from, target, i + 1, n);
    }
}

/// A place is free where nothing is planned and nothing is on disk. It is not
/// free where another file is planned, nor where a file is on disk that is
/// neither a pending orphan nor the file itself.
pub proof fn law_places_are_free_or_taken(
    disk: Seq<Probe>,
    orphans: Seq<Seq<char>>,
    used: Seq<Seq<char>>,
    p: Seq<char>,
    from: Seq<char>,
    k: int,
)
    ensures
        0 <= k < used.len() && crate::paths::comps(used[k]) == crate::paths::comps(p) ==> occupied(
            disk,
            orphans,
            used,
            p,
            from,
        ),
        !names(used, p) && not_there(disk, p) ==> free(disk, orphans, used, p, from),
        !names(used, p) && there(disk, p) && names(orphans, p) ==> free(
            disk,
            orphans,
            used,
            p,
            from,
        ),
        ({
            let a = answer(disk, p);
            let b = answer(disk, from);
            !names(used, p) && !names(orphans, p) && a is Some && b is Some && a->0.exists
                && a->0.resolved is Some && b->0.resolved is Some ==> if crate::paths::comps(
                a->0.resolved->0@,
            ) == crate::paths::comps(b->0.resolved->0@) {
                free(disk, orphans, used, p, from)
            } else {
                occupied(disk, orphans, used, p, from)
            }
        }),
{
    if 0 <= k < used.len() && crate::paths::comps(used[k]) == crate::paths::comps(p) {
        assert(names(used, p));
    }
}

/// Numbered variants stand beside the target, with its extension: the number
/// comes behind its name, in brackets. No two of them are one path.
pub proof fn law_variants_stand_beside_the_target(target: Seq<char>, i: int, j: int)
    requires
        crate::paths::name_of_path(target) is Some,
        0 <= i < j,
    ensures
        crate::paths::comps(variant(target, i)).drop_last() == crate::paths::comps(
            target,
        ).drop_last(),
        crate::paths::name_of_path(variant(target, i)) is Some,
        crate::paths::stem_of_path(variant(target, i)) is Some,
        crate::text::begins(
            crate::paths::name_of_path(variant(target, i))->0,
            crate::paths::stem_of_path(target)->0 + " ("@ + crate::text::decimal(i as nat) + ")"@,
        ),
        crate::paths::ext_of_path(target) is Some && crate::paths::ext_of_path(target)->0.len() > 0
            ==> crate::paths::ext_of_path(variant(target, i)) == crate::paths::ext_of_path(target),
        crate::paths::comps(variant(target, i)) != crate::paths::comps(variant(target, j)),
{
    lemma_variant(target, i);
    lemma_variant(target, j);
    crate::text::law_decimals_read_back(i as nat);
    crate::text::law_decimals_read_back(j as nat);
    let stem = crate::paths::stem_of_path(target)->0;
    let (di, dj) = (crate::text::decimal(i as nat), crate::text::decimal(j as nat));
    let (ni, nj) = (variant_name(target, i), variant_name(target, j));
    reveal_strlit(" (");
    reveal_strlit(")");
    reveal_strlit(".");
    let head = stem + " ("@ + di + ")"@;
    assert(ni.take(head.len() as int) =~= head);
    assert(ni != nj) by {
        if ni == nj {
            let b = (stem.len() + 2) as int;
            if di.len() < dj.len() {
                assert(ni[b + di.len()] == ')');
                assert(nj[b + di.len()] == dj[di.len() as int]);
            } else if dj.len() < di.len() {
                assert(nj[b + dj.len()] == ')');
                assert(ni[b + dj.len()] == di[dj.len() as int]);
            } else {
                assert(di =~= dj) by {
                    assert forall|k: int| 0 <= k < di.len() implies di[k] == dj[k] by {
                        assert(ni[b + k] == di[k] && nj[b + k] == dj[k]);
                    }
                }
            }
        }
    }
    assert(crate::paths::comps(variant(target, i)).last() == ni);
    assert(crate::paths::comps(variant(target, j)).last() == nj);
}

/// The file name of a numbered variant.
spec fn variant_name(target: Seq<char>, i: int) -> Seq<char> {
    let stem = match crate::paths::stem_of_path(target) {
        Some(s) => s,
        None => Seq::empty(),
    };
    let numbered = stem + " ("@ + crate::text::decimal(i as nat) + ")"@;
    match crate::paths::ext_of_path(target) {
        Some(e) => if e.len() == 0 { numbered } else { numbered + "."@ + e },
        None => numbered,
    }
}

proof fn lemma_variant(target: Seq<char>, i: int)
    requires
        crate::paths::name_of_path(target) is Some,
        0 <= i,
    ensures
        crate::paths::comps(variant(target, i)) == crate::paths::comps(target).drop_last().push(
            variant_name(target, i),
        ),
        crate::paths::name_of_path(variant(target, i)) == Some(variant_name(target, i)),
        crate::paths::ext_of_path(target) is Some && crate::paths::ext_of_path(target)->0.len() > 0
            ==> crate::paths::ext_of_path(variant(target, i)) == crate::paths::ext_of_path(target),
{
    reveal_strlit(" (");
    reveal_strlit(")");
    reveal_strlit(".");
    let whole = crate::paths::name_of_path(target)->0;
    let name = variant_name(target, i);
    let stem = crate::paths::stem_of_path(target)->0;
    let d = crate::text::decimal(i as nat);
    crate::text::law_decimals_read_back(i as nat);
    crate::paths::lemma_name_has_no_slash(target);
    lemma_last_dot(whole);
    let numbered = stem + " ("@ + d + ")"@;
    assert forall|k: int| 0 <= k < numbered.len() implies numbered[k] != '/' by {
        if k < stem.len() {
            assert(numbered[k] == whole[k]);
            assert(whole.contains(whole[k]));
        } else if stem.len() + 2 <= k < stem.len() + 2 + d.len() {
            assert(numbered[k] == d[k - stem.len() - 2]);
        }
    }
    assert(!name.contains('/')) by {
        assert forall|k: int| 0 <= k < name.len() implies name[k] != '/' by {
            if k < numbered.len() {
                assert(name[k] == numbered[k]);
            } else if k > numbered.len() {
                let e = crate::paths::ext_of_path(target)->0;
                let at = crate::paths::dot_at(whole)->0;
                assert(name[k] == e[k - numbered.len() - 1]);
                assert(whole[at + 1 + (k - numbered.len() - 1)] == name[k]);
                assert(whole.contains(whole[at + 1 + (k - numbered.len() - 1)]));
            }
        }
    }
    crate::paths::lemma_one_component(name);
    crate::paths::lemma_spans(target);
    assert(crate::paths::parent_of(target) is Some) by {
        if crate::paths::absolute(target) && crate::paths::spans(target).len() == 1 {
            assert(crate::paths::comps(target).last() =~= seq!['/']);
        }
    }
    let dir = crate::paths::parent_of(target)->0;
    crate::paths::law_parent_drops_the_last_component(target);
    assert(variant(target, i) == crate::paths::joined(dir, name));
    if dir.len() > 0 {
        crate::paths::lemma_joined(dir, name);
    } else {
        assert(crate::paths::joined(dir, name) =~= name);
        assert(crate::paths::comps(dir) =~= Seq::<Seq<char>>::empty());
    }
    let c = crate::paths::comps(variant(target, i));
    assert(c =~= crate::paths::comps(target).drop_last().push(name));
    assert(c.last() == name);
    assert(name.len() >= 4);
    if crate::paths::ext_of_path(target) is Some && crate::paths::ext_of_path(target)->0.len() > 0 {
        let e = crate::paths::ext_of_path(target)->0;
        let at = crate::paths::dot_at(whole)->0;
        assert(name == numbered + "."@ + e);
        let n = numbered.len() as int;
        assert forall|k: int| n < k < name.len() implies name[k] != '.' by {
            assert(name[k] == e[k - n - 1]);
            assert(whole[at + 1 + (k - n - 1)] == name[k]);
        }
        lemma_last_dot_is(name, n);
        assert(name.skip(n + 1) =~= e);
    }
}

proof fn lemma_last_dot(s: Seq<char>)
    ensures
        match crate::paths::last_of(s, '.') {
            Some(i) => 0 <= i < s.len() && s[i] == '.' && forall|k: int|
                i < k < s.len() ==> s[k] != '.',
            None => true,
        },
    decreases s.len(),
{
    if s.len() > 0 && s.last() != '.' {
        let d = s.drop_last();
        lemma_last_dot(d);
        if crate::paths::last_of(d, '.') is Some {
            let i = crate::paths::last_of(d, '.')->0;
            assert(s[i] == d[i]);
            assert forall|k: int| i < k < s.len() implies s[k] != '.' by {
                if k < d.len() {
                    assert(s[k] == d[k]);
                }
            }
        }
    }
}

proof fn lemma_last_dot_is(s: Seq<char>, n: int)
    requires
        0 <= n < s.len(),
        s[n] == '.',
        forall|k: int| n < k < s.len() ==> s[k] != '.',
    ensures
        crate::paths::last_of(s, '.') == Some(n),
    decreases s.len(),
{
    if n < s.len() - 1 {
        lemma_last_dot_is(s.drop_last(), n);
    }
}

// ---------------------------------------------------------------------------
// Laws of what is kept

proof fn lemma_claimed_by_others(
    all: Seq<Seq<char>>,
    ts: Seq<OrganizeTrackRow>,
    n: int,
    k: int,
)
    requires
        0 <= k < n <= all.len(),
        !is_source(ts, all[k]),
    ensures
        claimed_by_others(all, ts, n).contains(all[k]),
    decreases n,
{
    let r = claimed_by_others(all, ts, n);
    if k < n - 1 {
        lemma_claimed_by_others(all, ts, n - 1, k);
        let b = claimed_by_others(all, ts, n - 1);
        assert(r[b.index_of(all[k])] == all[k]);
    } else {
        assert(r[r.len() - 1] == all[k]);
    }
}

proof fn lemma_claimed_by_copies(
    copies: Seq<(i64, i64, String)>,
    ts: Seq<OrganizeTrackRow>,
    n: int,
    k: int,
)
    requires
        0 <= k < n <= copies.len(),
        !is_member(ts, copies[k].0, copies[k].1),
    ensures
        claimed_by_copies(copies, ts, n).contains(copies[k].2@),
    decreases n,
{
    let r = claimed_by_copies(copies, ts, n);
    if k < n - 1 {
        lemma_claimed_by_copies(copies, ts, n - 1, k);
        let b = claimed_by_copies(copies, ts, n - 1);
        assert(r[b.index_of(copies[k].2@)] == copies[k].2@);
    } else {
        assert(r[r.len() - 1] == copies[k].2@);
    }
}

/// The files of tracks that are not organized, and collection copies that are
/// not planned anew, keep their places: these are taken before any track is
/// assigned a place.
pub proof fn law_files_of_others_keep_their_places(
    disk: Seq<Probe>,
    lib: LibrarySettings,
    ts: Seq<OrganizeTrackRow>,
    all: Seq<Seq<char>>,
    copies: Seq<(i64, i64, String)>,
    k: int,
)
    requires
        reserved(disk, lib, ts, all, copies) is Ok,
    ensures
        0 <= k < all.len() && (forall|i: int|
            0 <= i < ts.len() ==> crate::paths::comps((#[trigger] ts[i]).file_path@)
                != crate::paths::comps(all[k])) ==> names(
            reserved(disk, lib, ts, all, copies)->Ok_0,
            all[k],
        ),
        0 <= k < copies.len() && (forall|i: int|
            0 <= i < ts.len() ==> (#[trigger] ts[i]).id != copies[k].0) ==> names(
            reserved(disk, lib, ts, all, copies)->Ok_0,
            copies[k].2@,
        ),
{
    let a = claimed_by_others(all, ts, all.len() as int);
    let b = claimed_by_copies(copies, ts, copies.len() as int);
    lemma_reserved(disk, lib, ts, 0, a + b);
    if 0 <= k < all.len() && (forall|i: int|
        0 <= i < ts.len() ==> crate::paths::comps((#[trigger] ts[i]).file_path@)
            != crate::paths::comps(all[k])) {
        lemma_claimed_by_others(all, ts, all.len() as int, k);
        assert((a + b)[a.index_of(all[k])] == all[k]);
        assert(names(a + b, all[k]));
    }
    if 0 <= k < copies.len() && (forall|i: int|
        0 <= i < ts.len() ==> (#[trigger] ts[i]).id != copies[k].0) {
        lemma_claimed_by_copies(copies, ts, copies.len() as int, k);
        assert((a + b)[a.len() + b.index_of(copies[k].2@)] == copies[k].2@);
        assert(names(a + b, copies[k].2@));
    }
}

/// The rows of missing tracks are kept where a hundred or more are missing,
/// and where five or more are that make up over a fifth of all; never where
/// fewer than five are missing.
pub proof fn law_many_missing_files_keep_their_rows(missing: nat, total: nat)
    ensures
        missing >= 100 ==> prune_reason(missing, total) is Some,
        missing >= 5 && missing * 5 > total ==> prune_reason(missing, total) is Some,
        missing < 5 ==> prune_reason(missing, total) is None,
        missing < 100 && missing * 5 <= total ==> prune_reason(missing, total) is None,
{
}

/// A cover goes next to the tracks of its album, under the name `cover` with
/// its own extension, unless it is there already or not on disk.
pub proof fn law_covers_go_with_their_album(
    disk: Seq<Probe>,
    id: i64,
    src: Seq<char>,
    dir: Seq<char>,
)
    requires
        answer(disk, src) is Some,
    ensures
        ({
            let r = cover_steps(disk, seq![(id, src)], seq![(id, dir)], 0);
            &&& r is Ok
            &&& not_there(disk, src) ==> r->Ok_0.len() == 0
            &&& crate::paths::comps(src) == crate::paths::comps(cover_home(dir, src))
                ==> r->Ok_0.len() == 0
            &&& there(disk, src) && crate::paths::comps(src) != crate::paths::comps(
                cover_home(dir, src),
            ) ==> r->Ok_0 == seq![(id, src, cover_home(dir, src))]
        }),
        crate::paths::ext_of_path(src) is Some ==> cover_home(dir, src) == crate::paths::joined(
            dir,
            "cover."@ + crate::text::ascii_lowered(crate::paths::ext_of_path(src)->0),
        ),
        crate::paths::ext_of_path(src) is None ==> cover_home(dir, src) == crate::paths::joined(
            dir,
            "cover."@ + crate::text::ascii_lowered("jpg"@),
        ),
{
    let albums = seq![(id, dir)];
    let covers = seq![(id, src)];
    assert(cover_of(covers, id) == Some(src));
    assert(cover_steps(disk, covers, albums, 1) == Ok::<
        Seq<(i64, Seq<char>, Seq<char>)>,
        Seq<char>,
    >(Seq::empty()));
    let dest = cover_home(dir, src);
    assert(seq![(id, src, dest)] + Seq::<(i64, Seq<char>, Seq<char>)>::empty() =~= seq![
        (id, src, dest),
    ]);
}


// ---------------------------------------------------------------------------
// Laws of planning

/// Of several answers about a path the first counts.
pub proof fn law_the_first_answer_about_a_path_counts(disk: Seq<Probe>, p: Seq<char>, k: int)
    requires
        0 <= k < disk.len(),
        disk[k].path@ == p,
        forall|j: int| 0 <= j < k ==> (#[trigger] disk[j]).path@ != p,
    ensures
        answer(disk, p) == Some(disk[k]),
    decreases disk.len(),
{
    if k > 0 {
        let rest = disk.skip(1);
        assert(disk[0].path@ != p);
        assert(rest[k - 1] == disk[k]);
        assert forall|j: int| 0 <= j < k - 1 implies (#[trigger] rest[j]).path@ != p by {
            assert(rest[j] == disk[j + 1]);
        }
        law_the_first_answer_about_a_path_counts(rest, p, k - 1);
    }
}

/// A track whose file is not on disk is noted as missing, and nothing else is
/// planned for it.
pub proof fn law_missing_files_are_only_noted(
    disk: Seq<Probe>,
    lib: LibrarySettings,
    orphans: Seq<Seq<char>>,
    t: OrganizeTrackRow,
    w: Work,
)
    requires
        not_there(disk, t.file_path@),
    ensures
        track_step(disk, lib, orphans, t, w) is Ok,
        ({
            let n = track_step(disk, lib, orphans, t, w)->Ok_0;
            &&& n.missing == w.missing.push((t.id, t.file_path@, t.title@))
            &&& n.moves == w.moves
            &&& n.copies == w.copies
            &&& n.backfills == w.backfills
            &&& n.skipped == w.skipped
            &&& n.used == w.used
            &&& n.albums == w.albums
        }),
{
    reveal(track_step);
}

/// A track that is not where it belongs moves there, if that place is free;
/// it counts as skipped where it is there already.
pub proof fn law_files_move_where_they_belong(
    disk: Seq<Probe>,
    lib: LibrarySettings,
    orphans: Seq<Seq<char>>,
    t: OrganizeTrackRow,
    w: Work,
)
    requires
        there(disk, t.file_path@),
        t.collections@.len() == 0,
        w.skipped < usize::MAX,
    ensures
        crate::paths::comps(t.file_path@) != crate::paths::comps(primary_home(lib, t)) && free(
            disk,
            orphans,
            w.used,
            primary_home(lib, t),
            t.file_path@,
        ) ==> track_step(disk, lib, orphans, t, w) is Ok && ({
            let n = track_step(disk, lib, orphans, t, w)->Ok_0;
            &&& n.moves.len() == w.moves.len() + 1
            &&& n.moves.last().track_id == t.id
            &&& n.moves.last().from == t.file_path@
            &&& n.moves.last().to == primary_home(lib, t)
            &&& n.moves.last().also_collection is None
            &&& n.moves.drop_last() == w.moves
            &&& n.used == w.used.push(primary_home(lib, t))
            &&& n.skipped == w.skipped
            &&& n.copies == w.copies
            &&& n.missing == w.missing
        }),
        crate::paths::comps(t.file_path@) == crate::paths::comps(primary_home(lib, t))
            ==> track_step(disk, lib, orphans, t, w) is Ok && ({
            let n = track_step(disk, lib, orphans, t, w)->Ok_0;
            &&& n.moves == w.moves
            &&& n.skipped == w.skipped + 1
            &&& n.copies == w.copies
            &&& n.missing == w.missing
        }),
{
    reveal(track_step);
    reveal(move_step);
    reveal(place);
    assert(by_id(t.collections@).len() == 0);
    assert(copied_for(t).len() == 0);
    if crate::paths::comps(t.file_path@) != crate::paths::comps(primary_home(lib, t)) && free(
        disk,
        orphans,
        w.used,
        primary_home(lib, t),
        t.file_path@,
    ) {
        let m = MoveView {
            track_id: t.id,
            from: t.file_path@,
            to: primary_home(lib, t),
            also_collection: also(t),
        };
        assert(w.moves.push(m).drop_last() =~= w.moves);
    }
}

/// A copy for a collection that is on disk is not made again, but recorded
/// where that was not done; one that is not is copied from where the track
/// will be.
pub proof fn law_copies_are_made_once(
    disk: Seq<Probe>,
    lib: LibrarySettings,
    orphans: Seq<Seq<char>>,
    t: OrganizeTrackRow,
    source: Seq<char>,
    c: OrganizeCollectionMembership,
    w: Work,
)
    requires
        w.skipped < usize::MAX,
    ensures
        there(disk, collection_home(lib, t, c)) ==> copy_step(
            disk,
            lib,
            orphans,
            t,
            source,
            c,
            w,
        ) is Ok && ({
            let n = copy_step(disk, lib, orphans, t, source, c, w)->Ok_0;
            &&& n.copies == w.copies
            &&& n.skipped == w.skipped + 1
            &&& n.used == w.used.push(collection_home(lib, t, c))
            &&& c.collection_file_path is None ==> n.backfills == w.backfills.push(
                (t.id, c.id, collection_home(lib, t, c)),
            )
            &&& c.collection_file_path is Some && c.collection_file_path->0@ == collection_home(
                lib,
                t,
                c,
            ) ==> n.backfills == w.backfills
        }),
        not_there(disk, collection_home(lib, t, c)) && !names(w.used, collection_home(lib, t, c))
            ==> copy_step(disk, lib, orphans, t, source, c, w) is Ok && ({
            let n = copy_step(disk, lib, orphans, t, source, c, w)->Ok_0;
            &&& n.copies.len() == w.copies.len() + 1
            &&& n.copies.last().track_id == t.id
            &&& n.copies.last().collection_id == c.id
            &&& n.copies.last().collection_name == c.name@
            &&& n.copies.last().from == source
            &&& n.copies.last().to == collection_home(lib, t, c)
            &&& n.copies.drop_last() == w.copies
            &&& n.backfills == w.backfills
            &&& n.skipped == w.skipped
        }),
{
    reveal(copy_step);
    reveal(place);
    if not_there(disk, collection_home(lib, t, c)) && !names(w.used, collection_home(lib, t, c)) {
        let v = CopyView {
            track_id: t.id,
            collection_id: c.id,
            collection_name: c.name@,
            from: source,
            to: collection_home(lib, t, c),
        };
        assert(w.copies.push(v).drop_last() =~= w.copies);
    }
}

/// Tracks are planned for one after the other, each with what was planned
/// before it.
pub proof fn law_tracks_are_planned_in_order(
    disk: Seq<Probe>,
    lib: LibrarySettings,
    orphans: Seq<Seq<char>>,
    a: Seq<OrganizeTrackRow>,
    b: Seq<OrganizeTrackRow>,
    w: Work,
)
    ensures
        track_steps(disk, lib, orphans, a + b, 0, w) == (match track_steps(
            disk,
            lib,
            orphans,
            a,
            0,
            w,
        ) {
            Ok(m) => track_steps(disk, lib, orphans, b, 0, m),
            Err(q) => Err(q),
        }),
{
    lemma_track_steps_add(disk, lib, orphans, a, b, 0, w);
}

proof fn lemma_track_steps_shift(
    disk: Seq<Probe>,
    lib: LibrarySettings,
    orphans: Seq<Seq<char>>,
    a: Seq<OrganizeTrackRow>,
    b: Seq<OrganizeTrackRow>,
    i: int,
    w: Work,
)
    requires
        0 <= i <= b.len(),
    ensures
        track_steps(disk, lib, orphans, a + b, a.len() + i, w) == track_steps(
            disk,
            lib,
            orphans,
            b,
            i,
            w,
        ),
    decreases b.len() - i,
{
    if i < b.len() {
        assert((a + b)[a.len() + i] == b[i]);
        if track_step(disk, lib, orphans, b[i], w) is Ok {
            lemma_track_steps_shift(
                disk,
                lib,
                orphans,
                a,
                b,
                i + 1,
                track_step(disk, lib, orphans, b[i], w)->Ok_0,
            );
        }
    }
}

proof fn lemma_track_steps_add(
    disk: Seq<Probe>,
    lib: LibrarySettings,
    orphans: Seq<Seq<char>>,
    a: Seq<OrganizeTrackRow>,
    b: Seq<OrganizeTrackRow>,
    i: int,
    w: Work,
)
    requires
        0 <= i <= a.len(),
    ensures
        track_steps(disk, lib, orphans, a + b, i, w) == (match track_steps(
            disk,
            lib,
            orphans,
            a,
            i,
            w,
        ) {
            Ok(m) => track_steps(disk, lib, orphans, b, 0, m),
            Err(q) => Err(q),
        }),
    decreases a.len() - i,
{
    if i == a.len() {
        lemma_track_steps_shift(disk, lib, orphans, a, b, 0, w);
    } else {
        assert((a + b)[i] == a[i]);
        if track_step(disk, lib, orphans, a[i], w) is Ok {
            lemma_track_steps_add(
                disk,
                lib,
                orphans,
                a,
                b,
                i + 1,
                track_step(disk, lib, orphans, a[i], w)->Ok_0,
            );
        }
    }
}

/// An album's cover goes to the directory of its first track: a directory
/// that is noted for an album stays, and one is noted for each album.
pub proof fn law_the_first_track_gives_an_album_its_directory(
    albums: Seq<(i64, Seq<char>)>,
    id: i64,
    dir: Seq<char>,
)
    requires
        forall|i: int, j: int|
            0 <= i < j < albums.len() ==> (#[trigger] albums[i]).0 < (#[trigger] albums[j]).0,
    ensures
        ({
            let r = with_album(albums, id, dir);
            &&& (exists|i: int| 0 <= i < albums.len() && (#[trigger] albums[i]).0 == id) ==> r
                == albums
            &&& (forall|i: int| 0 <= i < albums.len() ==> (#[trigger] albums[i]).0 != id)
                ==> r.contains((id, dir)) && r.len() == albums.len() + 1
            &&& forall|i: int| 0 <= i < albums.len() ==> r.contains(#[trigger] albums[i])
        }),
    decreases albums.len(),
{
    let r = with_album(albums, id, dir);
    if albums.len() == 0 || albums.last().0 < id {
        assert(r[albums.len() as int] == (id, dir));
        assert forall|i: int| 0 <= i < albums.len() implies r.contains(#[trigger] albums[i]) by {
            assert(r[i] == albums[i]);
        }
        assert forall|i: int| 0 <= i < albums.len() implies (#[trigger] albums[i]).0 != id by {
            if i < albums.len() - 1 {
                assert(albums[i].0 < albums[albums.len() - 1].0);
            }
        }
    } else if albums.last().0 == id {
        assert(albums[albums.len() - 1].0 == id);
        assert forall|i: int| 0 <= i < albums.len() implies r.contains(#[trigger] albums[i]) by {
            assert(r[i] == albums[i]);
        }
    } else {
        let d = albums.drop_last();
        assert forall|i: int, j: int| 0 <= i < j < d.len() implies (#[trigger] d[i]).0 < (
        #[trigger] d[j]).0 by {
            assert(d[i] == albums[i] && d[j] == albums[j]);
        }
        law_the_first_track_gives_an_album_its_directory(d, id, dir);
        let p = with_album(d, id, dir);
        if exists|i: int| 0 <= i < albums.len() && (#[trigger] albums[i]).0 == id {
            let i = choose|i: int| 0 <= i < albums.len() && (#[trigger] albums[i]).0 == id;
            assert(d[i].0 == id);
            assert(d.push(albums.last()) =~= albums);
        } else {
            assert forall|i: int| 0 <= i < d.len() implies (#[trigger] d[i]).0 != id by {
                assert(d[i] == albums[i]);
            }
            assert(r[p.index_of((id, dir))] == (id, dir));
        }
        assert forall|i: int| 0 <= i < albums.len() implies r.contains(#[trigger] albums[i]) by {
            if i < d.len() {
                assert(d[i] == albums[i]);
                assert(r[p.index_of(albums[i])] == albums[i]);
            } else {
                assert(r[p.len() as int] == albums[i]);
            }
        }
    }
}

} // verus!
