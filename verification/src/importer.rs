//! Importing: which files are audio, how they fall into batches, which batch
//! becomes an album, and in which order its tracks enter a collection.
use crate::collection_order::{ordered_indices, CollectionOrderItem};
use crate::models::Track;
use crate::paths::{extension, file_name, file_stem, parent};
use crate::rows::copy_text;
use crate::sweep::path_rank;
use crate::tagger::TagData;
use crate::text::{
    ascii_lower_text, contains_text, holds, number_text, same, same_opt, to_lower, trim, views,
};
use vstd::prelude::*;

verus! {

/// What an import came to.
#[derive(Debug)]
pub struct ImportResult {
    pub imported: u32,
    pub skipped_duplicate: u32,
    pub skipped_error: u32,
    pub skipped_non_utf8: u32,
    pub added_to_collection: u32,
    pub albums_created: u32,
    pub albums_existing: u32,
    pub collection_created: bool,
    pub errors: Vec<(String, String)>,
}

impl Default for ImportResult {
    fn default() -> (r: Self)
        ensures
            r.imported == 0,
            r.skipped_duplicate == 0,
            r.skipped_error == 0,
            r.skipped_non_utf8 == 0,
            r.added_to_collection == 0,
            r.albums_created == 0,
            r.albums_existing == 0,
            !r.collection_created,
            r.errors@.len() == 0,
    {
        ImportResult {
            imported: 0,
            skipped_duplicate: 0,
            skipped_error: 0,
            skipped_non_utf8: 0,
            added_to_collection: 0,
            albums_created: 0,
            albums_existing: 0,
            collection_created: false,
            errors: Vec::new(),
        }
    }
}

/// The audio files below a directory.
#[derive(Debug)]
pub struct ScanAudioResult {
    pub files: Vec<String>,
    pub skipped_non_utf8: u32,
}

/// The audio files in the inboxes that the library does not know yet.
#[derive(Debug)]
pub struct ScanInboxResult {
    pub files: Vec<String>,
    pub skipped_non_utf8: u32,
}

// ---------------------------------------------------------------------------
// Covers

/// The names under which a cover is looked for, best first.
pub open spec fn cover_names() -> Seq<Seq<char>> {
    seq!["cover"@, "folder"@, "front"@, "artwork"@, "album"@, "albumart"@]
}

/// The extensions of images.
pub open spec fn is_image_ext(ext: Seq<char>) -> bool {
    let e = crate::text::ascii_lowered(ext);
    e == "jpg"@ || e == "jpeg"@ || e == "png"@ || e == "webp"@
}

/// Whether a file is an image with this name, whatever the case.
pub open spec fn is_cover_named(p: Seq<char>, name: Seq<char>) -> bool {
    &&& crate::paths::stem_of_path(p) is Some
    &&& crate::text::ascii_lowered(crate::paths::stem_of_path(p)->0) == name
    &&& crate::paths::ext_of_path(p) is Some
    &&& is_image_ext(crate::paths::ext_of_path(p)->0)
}

/// The first of the files from `i` on that is an image with this name.
pub open spec fn cover_named(files: Seq<Seq<char>>, name: Seq<char>, i: int) -> Option<Seq<char>>
    decreases files.len() - i,
{
    if i < 0 || i >= files.len() {
        None
    } else if is_cover_named(files[i], name) {
        Some(files[i])
    } else {
        cover_named(files, name, i + 1)
    }
}

/// The first file with the best name from the `b`-th on.
pub open spec fn best_cover(files: Seq<Seq<char>>, b: int) -> Option<Seq<char>>
    decreases cover_names().len() - b,
{
    if b < 0 || b >= cover_names().len() {
        None
    } else {
        match cover_named(files, cover_names()[b], 0) {
            Some(p) => Some(p),
            None => best_cover(files, b + 1),
        }
    }
}

fn image_named(p: &str, name: &str) -> (r: bool)
    ensures
        r == is_cover_named(p@, name@),
{
    let stem = match file_stem(p) {
        Some(s) => s,
        None => return false,
    };
    let low = ascii_lower_text(stem.as_str());
    if !same(low.as_str(), name) {
        return false;
    }
    match extension(p) {
        Some(ext) => {
            let e = ascii_lower_text(ext.as_str());
            same(e.as_str(), "jpg") || same(e.as_str(), "jpeg") || same(e.as_str(), "png") || same(
                e.as_str(),
                "webp",
            )
        },
        None => false,
    }
}

fn find_cover_named(files: &Vec<String>, name: &str) -> (r: Option<String>)
    ensures
        crate::text::opt_view(r) == cover_named(views(files@), name@, 0),
{
    let ghost fv = views(files@);
    let mut i: usize = 0;
    while i < files.len()
        invariant
            i <= files@.len(),
            fv == views(files@),
            cover_named(fv, name@, 0) == cover_named(fv, name@, i as int),
        decreases files@.len() - i,
    {
        assert(fv[i as int] == files@[i as int]@);
        if image_named(files[i].as_str(), name) {
            return Some(files[i].clone());
        }
        i += 1;
    }
    None
}

/// The cover among the files of a directory: an image named `cover`, else
/// `folder`, `front`, `artwork`, `album` or `albumart`. Case does not matter.
pub fn detect_sibling_cover(files: &Vec<String>) -> (r: Option<String>)
    ensures
        crate::text::opt_view(r) == best_cover(views(files@), 0),
{
    let names: Vec<&str> = vec!["cover", "folder", "front", "artwork", "album", "albumart"];
    let ghost fv = views(files@);
    let mut b: usize = 0;
    while b < names.len()
        invariant
            b <= names@.len(),
            fv == views(files@),
            names@.len() == cover_names().len(),
            forall|k: int| 0 <= k < names@.len() ==> (#[trigger] names@[k])@ == cover_names()[k],
            best_cover(fv, 0) == best_cover(fv, b as int),
        decreases names@.len() - b,
    {
        if let Some(p) = find_cover_named(files, names[b]) {
            return Some(p);
        }
        b += 1;
    }
    None
}

// ---------------------------------------------------------------------------
// Scanning

/// Whether a file is audio and not a copy that is being written.
pub open spec fn is_audio_file(p: Seq<char>) -> bool {
    &&& !(crate::paths::name_of_path(p) is Some && crate::text::has_text(
        crate::paths::name_of_path(p)->0,
        crate::tagger::tmp_marker(),
    ))
    &&& crate::models::known_format(crate::text::lowercased(crate::tagger::ext_or_empty(p))) is Some
}

/// A copy that tags are being written to is never taken for a file to import.
pub proof fn law_copies_being_written_are_not_scanned(path: Seq<char>)
    ensures
        !is_audio_file(crate::tagger::tmp_path(path)),
{
    crate::tagger::law_copies_are_marked(path);
}

/// Paths in ascending order, with one more put after those that sort equal.
pub open spec fn insert_path(s: Seq<Seq<char>>, p: Seq<char>) -> Seq<Seq<char>>
    decreases s.len(),
{
    if s.len() == 0 || crate::sweep::path_order(s.last(), p) <= 0 {
        s.push(p)
    } else {
        insert_path(s.drop_last(), p).push(s.last())
    }
}

/// The audio files among the first `n` found, in path order.
pub open spec fn audio_files(found: Seq<Option<String>>, n: int) -> Seq<Seq<char>>
    decreases n,
{
    if n <= 0 {
        Seq::empty()
    } else {
        let before = audio_files(found, n - 1);
        match found[n - 1] {
            Some(p) => if is_audio_file(p@) { insert_path(before, p@) } else { before },
            None => before,
        }
    }
}

/// How many of the first `n` found have a name that is not text.
pub open spec fn unreadable(found: Seq<Option<String>>, n: int) -> nat
    decreases n,
{
    if n <= 0 {
        0
    } else {
        unreadable(found, n - 1) + if found[n - 1] is None { 1nat } else { 0nat }
    }
}

/// A number as far as it goes in 32 bits.
pub open spec fn capped(n: nat) -> u32 {
    if n <= u32::MAX { n as u32 } else { u32::MAX }
}

/// Whether a file is audio and not a copy that is being written.
pub fn is_audio(p: &str) -> (r: bool)
    ensures
        r == is_audio_file(p@),
{
    if let Some(name) = file_name(p) {
        if contains_text(name.as_str(), ".kyoku-tmp") {
            return false;
        }
    }
    let ext = match extension(p) {
        Some(e) => e,
        None => String::new(),
    };
    crate::models::AudioFormat::from_extension(ext.as_str()).is_supported()
}

proof fn lemma_insert_path(s: Seq<Seq<char>>, p: Seq<char>, at: int)
    requires
        0 <= at <= s.len(),
        forall|k: int| at <= k < s.len() ==> crate::sweep::path_order(#[trigger] s[k], p) > 0,
        at > 0 ==> crate::sweep::path_order(s[at - 1], p) <= 0,
    ensures
        insert_path(s, p) == s.insert(at, p),
    decreases s.len(),
{
    if at < s.len() {
        assert(s.last() == s[s.len() - 1]);
        lemma_insert_path(s.drop_last(), p, at);
        assert(s.drop_last().insert(at, p).push(s.last()) =~= s.insert(at, p));
    } else {
        assert(s.push(p) =~= s.insert(at, p));
    }
}

fn count_one(n: u32) -> (r: u32)
    ensures
        r == crate::organize_apply::one_more(n),
{
    if n < u32::MAX {
        n + 1
    } else {
        n
    }
}

/// The audio files among all files found below a directory, in path order,
/// and how many names were not text. `None` stands for such a name.
pub fn scan_audio_files_with_report(found: &Vec<Option<String>>) -> (r: ScanAudioResult)
    ensures
        views(r.files@) == audio_files(found@, found@.len() as int),
        r.skipped_non_utf8 == capped(unreadable(found@, found@.len() as int)),
{
    let mut files: Vec<String> = Vec::new();
    let mut skipped: u32 = 0;
    let mut i: usize = 0;
    assert(views(files@) =~= audio_files(found@, 0));
    while i < found.len()
        invariant
            i <= found@.len(),
            views(files@) == audio_files(found@, i as int),
            skipped == capped(unreadable(found@, i as int)),
        decreases found@.len() - i,
    {
        match &found[i] {
            None => {
                skipped = count_one(skipped);
            },
            Some(p) => {
                if is_audio(p.as_str()) {
                    let ghost fv = views(files@);
                    let mut at: usize = files.len();
                    while at > 0 && path_rank(files[at - 1].as_str(), p.as_str()) > 0
                        invariant
                            at <= files@.len(),
                            fv == views(files@),
                            forall|k: int|
                                at <= k < fv.len() ==> crate::sweep::path_order(
                                    #[trigger] fv[k],
                                    p@,
                                ) > 0,
                        decreases at,
                    {
                        assert(fv[at - 1] == files@[at - 1]@);
                        at -= 1;
                    }
                    proof {
                        if at > 0 {
                            assert(fv[at - 1] == files@[at - 1]@);
                        }
                        lemma_insert_path(fv, p@, at as int);
                    }
                    files.insert(at, p.clone());
                    assert(views(files@) =~= fv.insert(at as int, p@));
                }
            },
        }
        i += 1;
    }
    ScanAudioResult { files, skipped_non_utf8: skipped }
}

/// Those of the first `n` files that are not known.
pub open spec fn unknown_files(
    files: Seq<Seq<char>>,
    known: Seq<Seq<char>>,
    n: int,
) -> Seq<Seq<char>>
    decreases n,
{
    if n <= 0 {
        Seq::empty()
    } else {
        let before = unknown_files(files, known, n - 1);
        if known.contains(files[n - 1]) { before } else { before.push(files[n - 1]) }
    }
}

/// Those of the files that the library does not know: not as a track, nor as
/// a collection copy, nor as an orphan.
pub fn scan_inbox(files: &Vec<String>, known: &Vec<String>) -> (r: Vec<String>)
    ensures
        views(r@) == unknown_files(views(files@), views(known@), files@.len() as int),
{
    let ghost fv = views(files@);
    let mut out: Vec<String> = Vec::new();
    let mut i: usize = 0;
    assert(views(out@) =~= unknown_files(fv, views(known@), 0));
    while i < files.len()
        invariant
            i <= files@.len(),
            fv == views(files@),
            views(out@) == unknown_files(fv, views(known@), i as int),
        decreases files@.len() - i,
    {
        assert(fv[i as int] == files@[i as int]@);
        if !holds(known, files[i].as_str()) {
            let ghost before = views(out@);
            out.push(files[i].clone());
            assert(views(out@) =~= before.push(fv[i as int]));
        }
        i += 1;
    }
    out
}

/// The files of several inboxes that the library does not know, inbox by
/// inbox, and how many names were not text.
pub fn scan_inbox_with_report(scans: &Vec<ScanAudioResult>, known: &Vec<String>) -> (r:
    ScanInboxResult)
    ensures
        views(r.files@) == unknown_in(scans@, views(known@), scans@.len() as int),
        r.skipped_non_utf8 == capped(unreadable_in(scans@, scans@.len() as int)),
{
    let mut files: Vec<String> = Vec::new();
    let mut skipped: u32 = 0;
    let mut i: usize = 0;
    assert(views(files@) =~= unknown_in(scans@, views(known@), 0));
    while i < scans.len()
        invariant
            i <= scans@.len(),
            views(files@) == unknown_in(scans@, views(known@), i as int),
            skipped == capped(unreadable_in(scans@, i as int)),
        decreases scans@.len() - i,
    {
        let more = scans[i].skipped_non_utf8;
        skipped = if skipped <= u32::MAX - more {
            skipped + more
        } else {
            u32::MAX
        };
        let ghost before = views(files@);
        let mut new = scan_inbox(&scans[i].files, known);
        let ghost nv = views(new@);
        files.append(&mut new);
        assert(views(files@) =~= before + nv);
        i += 1;
    }
    ScanInboxResult { files, skipped_non_utf8: skipped }
}

/// The unknown files of the first `n` inboxes.
pub open spec fn unknown_in(scans: Seq<ScanAudioResult>, known: Seq<Seq<char>>, n: int) -> Seq<
    Seq<char>,
>
    decreases n,
{
    if n <= 0 {
        Seq::empty()
    } else {
        unknown_in(scans, known, n - 1) + unknown_files(
            views(scans[n - 1].files@),
            known,
            scans[n - 1].files@.len() as int,
        )
    }
}

/// How many names in the first `n` inboxes were not text.
pub open spec fn unreadable_in(scans: Seq<ScanAudioResult>, n: int) -> nat
    decreases n,
{
    if n <= 0 { 0 } else { unreadable_in(scans, n - 1) + scans[n - 1].skipped_non_utf8 as nat }
}

// ---------------------------------------------------------------------------
// Batches

/// The key of the batch that a track falls into: its directory, or, among
/// loose tracks, its own number.
pub open spec fn batch_key(t: Track, index: int, loose: bool) -> Seq<char> {
    if loose {
        "__loose__"@ + crate::text::decimal(index as nat)
    } else {
        match t.source_dir {
            Some(d) => d@,
            None => match crate::paths::parent_of(t.file_path@) {
                Some(p) => p,
                None => "Unknown"@,
            },
        }
    }
}

/// The key of the batch that a track falls into. Tracks of one directory stay
/// together, so that a folder of hand-picked tracks can become a collection
/// as one unit; whether it is an album is decided by its tags.
pub fn album_group_key(t: &Track, index: usize, loose: bool) -> (r: String)
    ensures
        r@ == batch_key(*t, index as int, loose),
{
    if loose {
        let mut s = "__loose__".to_owned();
        let n = number_text(index as u64);
        s.append(n.as_str());
        return s;
    }
    match &t.source_dir {
        Some(d) => d.clone(),
        None => match parent(t.file_path.as_str()) {
            Some(p) => p,
            None => "Unknown".to_owned(),
        },
    }
}

/// A batch: its key and the positions of its tracks.
#[derive(Debug)]
pub struct Batch {
    pub key: String,
    pub indices: Vec<usize>,
}

/// Whether `b` holds just the tracks among the first `n` that have its key,
/// in order.
pub open spec fn batch_fits(b: Batch, tracks: Seq<Track>, loose: bool, n: int) -> bool {
    &&& b.indices@.len() > 0
    &&& forall|i: int, j: int|
        0 <= i < j < b.indices@.len() ==> #[trigger] b.indices@[i] < #[trigger] b.indices@[j]
    &&& forall|i: int|
        0 <= i < b.indices@.len() ==> (#[trigger] b.indices@[i]) < n && batch_key(
            tracks[b.indices@[i] as int],
            b.indices@[i] as int,
            loose,
        ) == b.key@
    &&& forall|k: int|
        0 <= k < n && batch_key(#[trigger] tracks[k], k, loose) == b.key@ ==> exists|i: int|
            0 <= i < b.indices@.len() && #[trigger] b.indices@[i] == k
}

/// Whether `r` holds one batch for every key of the first `n` tracks, by
/// ascending first track.
pub open spec fn batched(r: Seq<Batch>, tracks: Seq<Track>, loose: bool, n: int) -> bool {
    &&& forall|i: int| 0 <= i < r.len() ==> batch_fits(#[trigger] r[i], tracks, loose, n)
    &&& forall|i: int, j: int|
        0 <= i < j < r.len() ==> (#[trigger] r[i]).key@ != (#[trigger] r[j]).key@
    &&& forall|i: int, j: int|
        0 <= i < j < r.len() ==> (#[trigger] r[i]).indices@[0] < (#[trigger] r[j]).indices@[0]
    &&& forall|k: int|
        0 <= k < n ==> has_batch(r, batch_key(#[trigger] tracks[k], k, loose))
}

/// Whether there is a batch with this key.
pub open spec fn has_batch(r: Seq<Batch>, key: Seq<char>) -> bool {
    exists|i: int| 0 <= i < r.len() && (#[trigger] r[i]).key@ == key
}

/// The tracks in batches, by ascending first track.
pub fn group_into_albums(tracks: &Vec<Track>, loose: bool) -> (r: Vec<Batch>)
    ensures
        batched(r@, tracks@, loose, tracks@.len() as int),
{
    let mut out: Vec<Batch> = Vec::new();
    let mut n: usize = 0;
    while n < tracks.len()
        invariant
            n <= tracks@.len(),
            batched(out@, tracks@, loose, n as int),
        decreases tracks@.len() - n,
    {
        let ghost was = out@;
        let key = album_group_key(&tracks[n], n, loose);
        let mut at: usize = 0;
        while at < out.len() && !same(out[at].key.as_str(), key.as_str())
            invariant
                at <= out@.len(),
                out@ == was,
                forall|k: int| 0 <= k < at ==> (#[trigger] was[k]).key@ != key@,
            decreases out@.len() - at,
        {
            at += 1;
        }
        if at < out.len() {
            let mut b = out.remove(at);
            let ghost old_indices = b.indices@;
            b.indices.push(n);
            out.insert(at, b);
            proof {
                assert(out@ =~= was.update(at as int, b));
                assert(batch_fits(was[at as int], tracks@, loose, n as int));
                assert(b.indices@[old_indices.len() as int] == n);
                assert forall|k: int|
                    0 <= k < n + 1 && batch_key(#[trigger] tracks@[k], k, loose) == b.key@ implies exists|
                    i: int,
                | 0 <= i < b.indices@.len() && #[trigger] b.indices@[i] == k by {
                    if k < n {
                        let i = choose|i: int|
                            0 <= i < old_indices.len() && #[trigger] old_indices[i] == k;
                        assert(b.indices@[i] == k);
                    }
                }
                assert(batch_fits(b, tracks@, loose, n + 1));
                assert forall|i: int| 0 <= i < out@.len() implies batch_fits(
                    #[trigger] out@[i],
                    tracks@,
                    loose,
                    n + 1,
                ) by {
                    if i != at {
                        assert(out@[i] == was[i]);
                        assert(batch_fits(was[i], tracks@, loose, n as int));
                        assert(was[i].key@ != key@) by {
                            if i < at {
                                assert(was[i].key@ != was[at as int].key@);
                            } else {
                                assert(was[at as int].key@ != was[i].key@);
                            }
                        }
                    }
                }
                assert forall|i: int, j: int| 0 <= i < j < out@.len() implies (
                #[trigger] out@[i]).key@ != (#[trigger] out@[j]).key@ && out@[i].indices@[0]
                    < out@[j].indices@[0] by {
                    assert(was[i].key@ != was[j].key@);
                    assert(was[i].indices@[0] < was[j].indices@[0]);
                    assert(batch_fits(was[i], tracks@, loose, n as int));
                    assert(batch_fits(was[j], tracks@, loose, n as int));
                }
                assert forall|q: Seq<char>| #[trigger] has_batch(was, q) implies has_batch(out@, q) by {
                    let i = choose|i: int| 0 <= i < was.len() && (#[trigger] was[i]).key@ == q;
                    assert(out@[i].key@ == q);
                }
                assert(out@[at as int].key@ == key@);
                assert(has_batch(out@, key@));
            }
        } else {
            let mut indices: Vec<usize> = Vec::new();
            indices.push(n);
            let b = Batch { key, indices };
            out.push(b);
            proof {
                assert forall|k: int| 0 <= k < n implies batch_key(#[trigger] tracks@[k], k, loose)
                    != b.key@ by {
                    assert(has_batch(was, batch_key(tracks@[k], k, loose)));
                }
                assert(b.indices@[0] == n);
                assert(batch_fits(b, tracks@, loose, n + 1));
                assert forall|i: int| 0 <= i < out@.len() implies batch_fits(
                    #[trigger] out@[i],
                    tracks@,
                    loose,
                    n + 1,
                ) by {
                    if i < was.len() {
                        assert(out@[i] == was[i]);
                        assert(batch_fits(was[i], tracks@, loose, n as int));
                    }
                }
                assert forall|i: int, j: int| 0 <= i < j < out@.len() implies (
                #[trigger] out@[i]).key@ != (#[trigger] out@[j]).key@ && out@[i].indices@[0]
                    < out@[j].indices@[0] by {
                    assert(out@[i] == was[i]);
                    assert(batch_fits(was[i], tracks@, loose, n as int));
                    assert(was[i].indices@[0] < n);
                    if j < was.len() {
                        assert(out@[j] == was[j]);
                    }
                }
                assert forall|q: Seq<char>| #[trigger] has_batch(was, q) implies has_batch(out@, q) by {
                    let i = choose|i: int| 0 <= i < was.len() && (#[trigger] was[i]).key@ == q;
                    assert(out@[i].key@ == q);
                }
                assert(out@[was.len() as int].key@ == key@);
                assert(has_batch(out@, key@));
            }
        }
        n += 1;
    }
    out
}

// ---------------------------------------------------------------------------
// Albums

/// The tag read for a track, if there is one.
pub open spec fn tag_at(tags: Seq<Option<TagData>>, i: int) -> Option<TagData> {
    if 0 <= i < tags.len() { tags[i] } else { None }
}

/// The artist that an album is filed under: the album's, else the track's.
pub open spec fn album_artist_of(t: TagData) -> Option<Seq<char>> {
    match t.album_artist {
        Some(a) => Some(a@),
        None => crate::text::opt_view(t.artist),
    }
}

/// What two tags of one album agree in: title and artist, trimmed and in
/// lower case.
pub open spec fn album_identity(t: Option<TagData>) -> Option<(Seq<char>, Option<Seq<char>>)> {
    match t {
        Some(d) => match d.album {
            Some(a) => Some(
                (
                    crate::text::lowercased(crate::text::trimmed(a@)),
                    match album_artist_of(d) {
                        Some(x) => Some(crate::text::lowercased(crate::text::trimmed(x))),
                        None => None,
                    },
                ),
            ),
            None => None,
        },
        None => None,
    }
}

/// Whether all tracks of a batch are tagged as one album.
pub open spec fn one_album(indices: Seq<usize>, tags: Seq<Option<TagData>>) -> bool {
    &&& indices.len() > 0
    &&& album_identity(tag_at(tags, indices[0] as int)) is Some
    &&& forall|k: int|
        0 <= k < indices.len() ==> album_identity(tag_at(tags, #[trigger] indices[k] as int))
            == album_identity(tag_at(tags, indices[0] as int))
}

fn identity_at(tags: &Vec<Option<TagData>>, i: usize) -> (r: Option<(String, Option<String>)>)
    ensures
        match r {
            Some((a, b)) => album_identity(tag_at(tags@, i as int)) == Some(
                (a@, crate::text::opt_view(b)),
            ),
            None => album_identity(tag_at(tags@, i as int)) is None,
        },
{
    if i >= tags.len() {
        return None;
    }
    match &tags[i] {
        Some(d) => match &d.album {
            Some(a) => {
                let t = trim(a.as_str());
                let artist = match &d.album_artist {
                    Some(x) => Some(x.clone()),
                    None => copy_text(&d.artist),
                };
                let low = match &artist {
                    Some(x) => {
                        let y = trim(x.as_str());
                        Some(to_lower(y.as_str()))
                    },
                    None => None,
                };
                Some((to_lower(t.as_str()), low))
            },
            None => None,
        },
        None => None,
    }
}

/// Whether all tracks of a batch are tagged as one album.
pub fn group_has_consistent_album_tags(
    indices: &Vec<usize>,
    tags: &Vec<Option<TagData>>,
) -> (r: bool)
    ensures
        r == one_album(indices@, tags@),
{
    if indices.len() == 0 {
        return false;
    }
    let first = match identity_at(tags, indices[0]) {
        Some(x) => x,
        None => return false,
    };
    let ghost want = album_identity(tag_at(tags@, indices@[0] as int));
    let mut k: usize = 0;
    while k < indices.len()
        invariant
            k <= indices@.len(),
            indices@.len() > 0,
            want == album_identity(tag_at(tags@, indices@[0] as int)),
            want == Some((first.0@, crate::text::opt_view(first.1))),
            forall|j: int|
                0 <= j < k ==> album_identity(tag_at(tags@, #[trigger] indices@[j] as int)) == want,
        decreases indices@.len() - k,
    {
        match identity_at(tags, indices[k]) {
            Some((a, b)) => {
                if !same(a.as_str(), first.0.as_str()) || !same_opt(&b, &first.1) {
                    assert(album_identity(tag_at(tags@, indices@[k as int] as int)) != want);
                    return false;
                }
            },
            None => {
                assert(album_identity(tag_at(tags@, indices@[k as int] as int)) != want);
                return false;
            },
        }
        k += 1;
    }
    true
}

/// The album key of a tag: artist and album, with a null character between.
pub open spec fn order_key(t: Option<TagData>) -> Option<Seq<char>> {
    match t {
        Some(d) => match d.album {
            Some(a) => Some(
                (match album_artist_of(d) {
                    Some(x) => x,
                    None => Seq::empty(),
                }) + seq!['\0'] + a@,
            ),
            None => None,
        },
        None => None,
    }
}

/// Whether `it` stands for the track at position `idx`, the `order`-th of its
/// batch.
pub open spec fn order_item_fits(
    it: CollectionOrderItem,
    tracks: Seq<Track>,
    tags: Seq<Option<TagData>>,
    idx: usize,
    order: int,
) -> bool {
    &&& it.index == idx
    &&& it.track_id == idx as i64
    &&& it.explicit_position is None
    &&& it.disc_number == tracks[idx as int].disc_number
    &&& it.track_number == tracks[idx as int].track_number
    &&& it.album_id is None
    &&& crate::text::opt_view(it.album_key) == order_key(tag_at(tags, idx as int))
    &&& it.added_order == order
    &&& it.title@ == tracks[idx as int].title@
}

/// Whether `items` stands for the tracks of a batch.
pub open spec fn order_items_fit(
    items: Seq<CollectionOrderItem>,
    indices: Seq<usize>,
    tracks: Seq<Track>,
    tags: Seq<Option<TagData>>,
) -> bool {
    items.len() == indices.len() && forall|k: int|
        0 <= k < items.len() ==> order_item_fits(#[trigger] items[k], tracks, tags, indices[k], k)
}

/// Whether `r` lists the tracks of a batch in collection order.
pub open spec fn in_collection_order(
    r: Seq<usize>,
    indices: Seq<usize>,
    tracks: Seq<Track>,
    tags: Seq<Option<TagData>>,
) -> bool {
    exists|items: Seq<CollectionOrderItem>, o: Seq<usize>| #[trigger]
        order_items_fit(items, indices, tracks, tags) && #[trigger]
        crate::sorting::stably_ordered(
            o,
            crate::collection_order::display_le(items),
            items.len() as int,
        ) && r == crate::collection_order::indices_in(items, o)
}

/// The tracks of a batch in the order of a collection: by disc and track
/// number where these are coherent, else as scanned.
pub fn ordered_group_indices(
    indices: &Vec<usize>,
    tracks: &Vec<Track>,
    tags: &Vec<Option<TagData>>,
) -> (r: Vec<usize>)
    requires
        forall|k: int| 0 <= k < indices@.len() ==> #[trigger] indices@[k] < tracks@.len(),
        tracks@.len() <= i64::MAX,
    ensures
        in_collection_order(r@, indices@, tracks@, tags@),
{
    let mut items: Vec<CollectionOrderItem> = Vec::new();
    let mut k: usize = 0;
    while k < indices.len()
        invariant
            k <= indices@.len(),
            tracks@.len() <= i64::MAX,
            forall|j: int| 0 <= j < indices@.len() ==> #[trigger] indices@[j] < tracks@.len(),
            items@.len() == k,
            forall|j: int|
                0 <= j < k ==> order_item_fits(
                    #[trigger] items@[j],
                    tracks@,
                    tags@,
                    indices@[j],
                    j,
                ),
        decreases indices@.len() - k,
    {
        let idx = indices[k];
        let mut album_key: Option<String> = None;
        if idx < tags.len() {
            if let Some(d) = &tags[idx] {
                if let Some(a) = &d.album {
                    let mut key = match &d.album_artist {
                        Some(x) => x.clone(),
                        None => match &d.artist {
                            Some(x) => x.clone(),
                            None => String::new(),
                        },
                    };
                    let ghost artist = key@;
                    key.push('\0');
                    key.append(a.as_str());
                    assert(key@ =~= artist + seq!['\0'] + a@);
                    album_key = Some(key);
                }
            }
        }
        let t = &tracks[idx];
        items.push(
            CollectionOrderItem {
                index: idx,
                track_id: idx as i64,
                explicit_position: None,
                disc_number: t.disc_number,
                track_number: t.track_number,
                album_id: None,
                album_key,
                added_order: k,
                title: t.title.clone(),
            },
        );
        k += 1;
    }
    assert(order_items_fit(items@, indices@, tracks@, tags@));
    ordered_indices(items.as_slice())
}

// ---------------------------------------------------------------------------
// The import

/// The album that a batch becomes.
#[derive(Debug)]
pub struct AlbumRequest {
    pub title: String,
    pub album_artist: Option<String>,
    pub year: Option<i32>,
    pub genre: Option<String>,
    pub track_total: u32,
    /// The directory in which a cover is looked for.
    pub cover_dir: Option<String>,
}

/// A batch as it enters the library.
#[derive(Debug)]
pub struct ImportBatch {
    pub album: Option<AlbumRequest>,
    /// The positions of its tracks, in collection order.
    pub order: Vec<usize>,
}

/// Whether `a` is the album that the tag `t` of a batch of `n` tracks asks for.
pub open spec fn album_fits(a: AlbumRequest, t: TagData, n: nat, cover_dir: Option<String>) -> bool {
    &&& t.album is Some
    &&& a.title@ == (t.album->0)@
    &&& a.album_artist == t.album_artist
    &&& a.year == (match t.year {
        Some(y) => Some(y as i32),
        None => None,
    })
    &&& a.genre == t.genre
    &&& a.track_total == n as u32
    &&& a.cover_dir == cover_dir
}

/// Whether `b` is how the batch `g` enters the library: as an album if it is
/// tagged as one and the import is not loose, after the tag of its first
/// track; else as tracks without album.
pub open spec fn import_batch_fits(
    b: ImportBatch,
    g: Batch,
    tracks: Seq<Track>,
    tags: Seq<Option<TagData>>,
    loose: bool,
) -> bool {
    &&& in_collection_order(b.order@, g.indices@, tracks, tags)
    &&& b.album is Some <==> !loose && one_album(g.indices@, tags)
    &&& b.album is Some ==> b.order@.len() > 0 && tag_at(tags, b.order@[0] as int) is Some && album_fits(
        b.album->0,
        tag_at(tags, b.order@[0] as int)->0,
        g.indices@.len(),
        tracks[b.order@[0] as int].source_dir,
    )
}

proof fn lemma_first_ordered(
    r: Seq<usize>,
    indices: Seq<usize>,
    tracks: Seq<Track>,
    tags: Seq<Option<TagData>>,
)
    requires
        in_collection_order(r, indices, tracks, tags),
        indices.len() > 0,
    ensures
        r.len() == indices.len(),
        exists|k: int| 0 <= k < indices.len() && #[trigger] indices[k] == r[0],
{
    let (items, o) = choose|items: Seq<CollectionOrderItem>, o: Seq<usize>| #[trigger]
        order_items_fit(items, indices, tracks, tags) && #[trigger]
        crate::sorting::stably_ordered(
            o,
            crate::collection_order::display_le(items),
            items.len() as int,
        ) && r == crate::collection_order::indices_in(items, o);
    assert(o[0] < items.len());
    assert(order_item_fits(items[o[0] as int], tracks, tags, indices[o[0] as int], o[0] as int));
    assert(indices[o[0] as int] == r[0]);
}

proof fn lemma_ordered_from(
    r: Seq<usize>,
    indices: Seq<usize>,
    tracks: Seq<Track>,
    tags: Seq<Option<TagData>>,
    j: int,
)
    requires
        in_collection_order(r, indices, tracks, tags),
        0 <= j < r.len(),
    ensures
        exists|k: int| 0 <= k < indices.len() && #[trigger] indices[k] == r[j],
{
    let (items, o) = choose|items: Seq<CollectionOrderItem>, o: Seq<usize>| #[trigger]
        order_items_fit(items, indices, tracks, tags) && #[trigger]
        crate::sorting::stably_ordered(
            o,
            crate::collection_order::display_le(items),
            items.len() as int,
        ) && r == crate::collection_order::indices_in(items, o);
    assert(o[j] < items.len());
    assert(order_item_fits(items[o[j] as int], tracks, tags, indices[o[j] as int], o[j] as int));
    assert(indices[o[j] as int] == r[j]);
}

/// How one batch enters the library.
fn import_batch(
    g: &Batch,
    tracks: &Vec<Track>,
    tags: &Vec<Option<TagData>>,
    loose: bool,
) -> (r: ImportBatch)
    requires
        batch_fits(*g, tracks@, loose, tracks@.len() as int),
        tracks@.len() <= i64::MAX,
    ensures
        import_batch_fits(r, *g, tracks@, tags@, loose),
{
    let order = ordered_group_indices(&g.indices, tracks, tags);
    proof {
        lemma_first_ordered(order@, g.indices@, tracks@, tags@);
    }
    if loose || !group_has_consistent_album_tags(&g.indices, tags) {
        return ImportBatch { album: None, order };
    }
    let first: usize = order[0];
    proof {
        let k = choose|k: int| 0 <= k < g.indices@.len() && #[trigger] g.indices@[k] == order@[0];
        assert(album_identity(tag_at(tags@, g.indices@[k] as int)) is Some);
        assert(g.indices@[k] < tracks@.len());
    }
    let album = match &tags[first] {
        Some(d) => match &d.album {
            Some(title) => Some(
                AlbumRequest {
                    title: title.clone(),
                    album_artist: copy_text(&d.album_artist),
                    year: match d.year {
                        Some(y) => Some(y as i32),
                        None => None,
                    },
                    genre: copy_text(&d.genre),
                    track_total: g.indices.len() as u32,
                    cover_dir: copy_text(&tracks[first].source_dir),
                },
            ),
            None => None,
        },
        None => None,
    };
    ImportBatch { album, order }
}

/// Whether `bs` are the batches by which tracks enter the library.
pub open spec fn is_import_plan(
    bs: Seq<ImportBatch>,
    tracks: Seq<Track>,
    tags: Seq<Option<TagData>>,
    loose: bool,
) -> bool {
    exists|gs: Seq<Batch>| #[trigger]
        batched(gs, tracks, loose, tracks.len() as int) && bs.len() == gs.len() && forall|i: int|
            0 <= i < gs.len() ==> import_batch_fits(#[trigger] bs[i], gs[i], tracks, tags, loose)
}

/// Whether every batch has tracks, all of them among the first `n`.
pub open spec fn batches_hold(bs: Seq<ImportBatch>, n: nat) -> bool {
    &&& forall|b: int| 0 <= b < bs.len() ==> (#[trigger] bs[b]).order@.len() > 0
    &&& forall|b: int, j: int|
        0 <= b < bs.len() && 0 <= j < bs[b].order@.len() ==> #[trigger] bs[b].order@[j] < n
}

/// The batches of a plan have tracks, all of them tracks that were read.
pub proof fn lemma_plan_holds(
    bs: Seq<ImportBatch>,
    tracks: Seq<Track>,
    tags: Seq<Option<TagData>>,
    loose: bool,
)
    requires
        is_import_plan(bs, tracks, tags, loose),
    ensures
        batches_hold(bs, tracks.len()),
{
    let gs = choose|gs: Seq<Batch>| #[trigger]
        batched(gs, tracks, loose, tracks.len() as int) && bs.len() == gs.len() && forall|i: int|
            0 <= i < gs.len() ==> import_batch_fits(#[trigger] bs[i], gs[i], tracks, tags, loose);
    assert forall|b: int| 0 <= b < bs.len() implies (#[trigger] bs[b]).order@.len() > 0 by {
        assert(import_batch_fits(bs[b], gs[b], tracks, tags, loose));
        assert(batch_fits(gs[b], tracks, loose, tracks.len() as int));
        lemma_first_ordered(bs[b].order@, gs[b].indices@, tracks, tags);
    }
    assert forall|b: int, j: int|
        0 <= b < bs.len() && 0 <= j < bs[b].order@.len() implies #[trigger] bs[b].order@[j]
        < tracks.len() by {
        assert(import_batch_fits(bs[b], gs[b], tracks, tags, loose));
        assert(batch_fits(gs[b], tracks, loose, tracks.len() as int));
        lemma_ordered_from(bs[b].order@, gs[b].indices@, tracks, tags, j);
        let k = choose|k: int|
            0 <= k < gs[b].indices@.len() && #[trigger] gs[b].indices@[k] == bs[b].order@[j];
        assert(gs[b].indices@[k] < tracks.len());
    }
}

/// How the tracks that were read enter the library, batch by batch.
pub fn plan_import(
    tracks: &Vec<Track>,
    tags: &Vec<Option<TagData>>,
    loose: bool,
) -> (r: Vec<ImportBatch>)
    requires
        tracks@.len() <= i64::MAX,
    ensures
        is_import_plan(r@, tracks@, tags@, loose),
{
    let groups = group_into_albums(tracks, loose);
    let mut out: Vec<ImportBatch> = Vec::new();
    let mut i: usize = 0;
    while i < groups.len()
        invariant
            i <= groups@.len(),
            tracks@.len() <= i64::MAX,
            batched(groups@, tracks@, loose, tracks@.len() as int),
            out@.len() == i,
            forall|k: int|
                0 <= k < i ==> import_batch_fits(
                    #[trigger] out@[k],
                    groups@[k],
                    tracks@,
                    tags@,
                    loose,
                ),
        decreases groups@.len() - i,
    {
        assert(batch_fits(groups@[i as int], tracks@, loose, tracks@.len() as int));
        out.push(import_batch(&groups[i], tracks, tags, loose));
        i += 1;
    }
    out
}

/// What was found out about a scanned file.
pub enum Intaken {
    /// The library has the file already; its track, if it was found.
    Known(Option<i64>),
    Read { track: Track, tags: TagData },
    Unreadable(String),
}

/// What an import has taken in so far.
pub struct Intake {
    pub result: ImportResult,
    pub tracks: Vec<Track>,
    pub tags: Vec<Option<TagData>>,
    /// Known tracks that are to join the collection, with the scanned path.
    pub duplicates: Vec<(i64, String)>,
}

/// The track with another path.
pub open spec fn with_path(t: Track, path: String) -> Track {
    Track { file_path: path, ..t }
}

/// An intake with another result.
pub open spec fn with_result(i: Intake, r: ImportResult) -> Intake {
    Intake { result: r, ..i }
}

/// A result with one more track in the collection, if it was new to it.
pub open spec fn joined_result(r: ImportResult, added: bool) -> ImportResult {
    ImportResult {
        added_to_collection: if added {
            crate::organize_apply::one_more(r.added_to_collection)
        } else {
            r.added_to_collection
        },
        ..r
    }
}

/// A result with one more batch: whether its album, if it has one, was new,
/// and the number of its tracks.
pub open spec fn batch_result(r: ImportResult, album_created: Option<bool>, tracks: u32) -> ImportResult {
    ImportResult {
        imported: capped(r.imported as nat + tracks as nat),
        albums_created: if album_created == Some(true) {
            crate::organize_apply::one_more(r.albums_created)
        } else {
            r.albums_created
        },
        albums_existing: if album_created == Some(false) {
            crate::organize_apply::one_more(r.albums_existing)
        } else {
            r.albums_existing
        },
        ..r
    }
}

/// Whether taking in a scanned file leads from one intake to another.
pub open spec fn took_in(
    before: Intake,
    file: Seq<char>,
    abs_path: String,
    for_collection: bool,
    seen: Intaken,
    after: Intake,
) -> bool {
    &&& after.result.imported == before.result.imported
    &&& after.result.skipped_non_utf8 == before.result.skipped_non_utf8
    &&& after.result.added_to_collection == before.result.added_to_collection
    &&& after.result.albums_created == before.result.albums_created
    &&& after.result.albums_existing == before.result.albums_existing
    &&& after.result.collection_created == before.result.collection_created
    &&& match seen {
        Intaken::Known(id) => {
            &&& after.result.skipped_duplicate == crate::organize_apply::one_more(
                before.result.skipped_duplicate,
            )
            &&& after.result.skipped_error == before.result.skipped_error
            &&& after.result.errors@ == before.result.errors@
            &&& after.tracks@ == before.tracks@
            &&& after.tags@ == before.tags@
            &&& crate::organizer::pair_views(after.duplicates@)
                == if for_collection && id is Some {
                crate::organizer::pair_views(before.duplicates@).push((id->0, file))
            } else {
                crate::organizer::pair_views(before.duplicates@)
            }
        },
        Intaken::Read { track, tags } => {
            &&& after.result.skipped_duplicate == before.result.skipped_duplicate
            &&& after.result.skipped_error == before.result.skipped_error
            &&& after.result.errors@ == before.result.errors@
            &&& after.tracks@ == before.tracks@.push(with_path(track, abs_path))
            &&& after.tags@ == before.tags@.push(Some(tags))
            &&& after.duplicates@ == before.duplicates@
        },
        Intaken::Unreadable(why) => {
            &&& after.result.skipped_duplicate == before.result.skipped_duplicate
            &&& after.result.skipped_error == crate::organize_apply::one_more(
                before.result.skipped_error,
            )
            &&& crate::organize_apply::error_views(after.result.errors@)
                == crate::organize_apply::error_views(before.result.errors@).push(
                (file, why@),
            )
            &&& after.tracks@ == before.tracks@
            &&& after.tags@ == before.tags@
            &&& after.duplicates@ == before.duplicates@
        },
    }
}

impl Intake {
    /// An import that has taken in nothing yet.
    pub fn new(skipped_non_utf8: u32) -> (r: Self)
        ensures
            r.result.imported == 0,
            r.result.skipped_duplicate == 0,
            r.result.skipped_error == 0,
            r.result.skipped_non_utf8 == skipped_non_utf8,
            r.result.added_to_collection == 0,
            r.result.albums_created == 0,
            r.result.albums_existing == 0,
            !r.result.collection_created,
            r.result.errors@.len() == 0,
            r.tracks@.len() == 0,
            r.tags@.len() == 0,
            r.duplicates@.len() == 0,
    {
        Intake {
            result: ImportResult {
                imported: 0,
                skipped_duplicate: 0,
                skipped_error: 0,
                skipped_non_utf8,
                added_to_collection: 0,
                albums_created: 0,
                albums_existing: 0,
                collection_created: false,
                errors: Vec::new(),
            },
            tracks: Vec::new(),
            tags: Vec::new(),
            duplicates: Vec::new(),
        }
    }

    /// Takes in one scanned file. A known file is a duplicate; if a collection
    /// was asked for, its track is to join it. A file that was read is
    /// recorded under its absolute path.
    pub fn take_in(&mut self, file: &str, abs_path: String, for_collection: bool, seen: Intaken)
        ensures
            took_in(*old(self), file@, abs_path, for_collection, seen, *final(self)),
    {
        match seen {
            Intaken::Known(id) => {
                if for_collection {
                    if let Some(track_id) = id {
                        self.duplicates.push((track_id, file.to_owned()));
                        assert(crate::organizer::pair_views(self.duplicates@)
                            =~= crate::organizer::pair_views(old(self).duplicates@).push(
                            (track_id, file@),
                        ));
                    }
                }
                self.result.skipped_duplicate = count_one(self.result.skipped_duplicate);
            },
            Intaken::Read { track, tags } => {
                let mut t = track;
                t.file_path = abs_path;
                self.tracks.push(t);
                self.tags.push(Some(tags));
            },
            Intaken::Unreadable(why) => {
                self.result.errors.push((file.to_owned(), why));
                assert(crate::organize_apply::error_views(self.result.errors@)
                    =~= crate::organize_apply::error_views(old(self).result.errors@).push(
                    (file@, why@),
                ));
                self.result.skipped_error = count_one(self.result.skipped_error);
            },
        }
    }

    /// Records that a collection was asked for, and whether it is new.
    pub fn collection_ready(&mut self, created: bool)
        ensures
            *final(self) == with_result(
                *old(self),
                ImportResult { collection_created: created, ..old(self).result },
            ),
    {
        self.result.collection_created = created;
    }

    /// Records whether a known track was new to the collection.
    pub fn joined_collection(&mut self, added: bool)
        ensures
            *final(self) == with_result(*old(self), joined_result(old(self).result, added)),
    {
        if added {
            self.result.added_to_collection = count_one(self.result.added_to_collection);
        }
    }

    /// Whether anything is to be inserted: not in a dry run, nor without new
    /// tracks.
    pub fn inserts(&self, pretend: bool) -> (r: bool)
        ensures
            r == (!pretend && self.tracks@.len() > 0),
    {
        !pretend && self.tracks.len() > 0
    }

    /// Records a batch that was inserted: whether its album, if it has one,
    /// was new, and the number of its tracks.
    pub fn batch_done(&mut self, album_created: Option<bool>, tracks: u32)
        ensures
            *final(self) == with_result(
                *old(self),
                batch_result(old(self).result, album_created, tracks),
            ),
    {
        match album_created {
            Some(true) => {
                self.result.albums_created = count_one(self.result.albums_created);
            },
            Some(false) => {
                self.result.albums_existing = count_one(self.result.albums_existing);
            },
            None => {},
        }
        let n = self.result.imported;
        self.result.imported = if n <= u32::MAX - tracks {
            n + tracks
        } else {
            u32::MAX
        };
    }
}

/// Whether a collection has to be made for an import: one was asked for, and
/// the run is not a dry one.
pub fn makes_collection(collection: &Option<String>, pretend: bool) -> (r: bool)
    ensures
        r == (collection is Some && !pretend),
{
    collection.is_some() && !pretend
}

/// The number of tracks in the first `n` batches.
pub open spec fn batch_total(bs: Seq<ImportBatch>, n: int) -> nat
    decreases n,
{
    if n <= 0 { 0 } else { batch_total(bs, n - 1) + bs[n - 1].order@.len() }
}

/// The positions in the first `n` batches.
spec fn in_batches(gs: Seq<Batch>, n: int) -> Seq<int>
    decreases n,
{
    if n <= 0 {
        Seq::empty()
    } else {
        in_batches(gs, n - 1) + gs[n - 1].indices@.map_values(|i: usize| i as int)
    }
}

proof fn lemma_in_batches(gs: Seq<Batch>, tracks: Seq<Track>, loose: bool, n: int)
    requires
        batched(gs, tracks, loose, tracks.len() as int),
        0 <= n <= gs.len(),
    ensures
        in_batches(gs, n).no_duplicates(),
        forall|k: int| #[trigger]
            in_batches(gs, n).contains(k) ==> 0 <= k < tracks.len() && has_batch(
                gs.take(n),
                batch_key(tracks[k], k, loose),
            ),
        forall|k: int|
            0 <= k < tracks.len() && has_batch(gs.take(n), batch_key(tracks[k], k, loose))
                ==> #[trigger] in_batches(gs, n).contains(k),
    decreases n,
{
    if n > 0 {
        lemma_in_batches(gs, tracks, loose, n - 1);
        let g = gs[n - 1];
        let a = in_batches(gs, n - 1);
        let b = g.indices@.map_values(|i: usize| i as int);
        let all = in_batches(gs, n);
        assert(all == a + b);
        assert(batch_fits(g, tracks, loose, tracks.len() as int));
        assert(gs.take(n)[n - 1] == g);
        assert forall|x: int| 0 <= x < b.len() implies 0 <= #[trigger] b[x] < tracks.len() && batch_key(
            tracks[b[x]],
            b[x],
            loose,
        ) == g.key@ by {
            assert(b[x] == g.indices@[x] as int);
        }
        assert forall|key: Seq<char>| #[trigger] has_batch(gs.take(n), key) implies has_batch(
            gs.take(n - 1),
            key,
        ) || key == g.key@ by {
            let i = choose|i: int| 0 <= i < gs.take(n).len() && (#[trigger] gs.take(n)[i]).key@ == key;
            if i < n - 1 {
                assert(gs.take(n - 1)[i] == gs.take(n)[i]);
            }
        }
        assert forall|key: Seq<char>| #[trigger] has_batch(gs.take(n - 1), key) implies has_batch(
            gs.take(n),
            key,
        ) && key != g.key@ by {
            let i = choose|i: int|
                0 <= i < gs.take(n - 1).len() && (#[trigger] gs.take(n - 1)[i]).key@ == key;
            assert(gs.take(n)[i] == gs.take(n - 1)[i]);
            assert(gs[i].key@ != gs[n - 1].key@);
        }
        assert forall|k: int| #[trigger] all.contains(k) implies 0 <= k < tracks.len() && has_batch(
            gs.take(n),
            batch_key(tracks[k], k, loose),
        ) by {
            let x = all.index_of(k);
            if x < a.len() {
                assert(a[x] == k);
                assert(a.contains(k));
            } else {
                assert(b[x - a.len()] == k);
            }
        }
        assert forall|k: int|
            0 <= k < tracks.len() && has_batch(gs.take(n), batch_key(tracks[k], k, loose)) implies #[trigger]
            all.contains(k) by {
            let key = batch_key(tracks[k], k, loose);
            if has_batch(gs.take(n - 1), key) {
                assert(a.contains(k));
                assert(all[a.index_of(k)] == k);
            } else {
                let x = choose|x: int| 0 <= x < g.indices@.len() && #[trigger] g.indices@[x] == k;
                assert(all[a.len() + x] == b[x]);
            }
        }
        assert forall|x: int, y: int| 0 <= x < y < all.len() implies all[x] != all[y] by {
            if y < a.len() {
                assert(a[x] != a[y]);
            } else if x >= a.len() {
                assert(g.indices@[x - a.len()] < g.indices@[y - a.len()]);
            } else {
                assert(a.contains(a[x]));
                assert(has_batch(gs.take(n - 1), batch_key(tracks[a[x]], a[x], loose)));
                assert(all[y] == b[y - a.len()]);
            }
        }
    }
}

/// The batches of a plan have every track that was read, once.
pub proof fn lemma_plan_total(
    bs: Seq<ImportBatch>,
    tracks: Seq<Track>,
    tags: Seq<Option<TagData>>,
    loose: bool,
)
    requires
        is_import_plan(bs, tracks, tags, loose),
    ensures
        batch_total(bs, bs.len() as int) == tracks.len(),
{
    let gs = choose|gs: Seq<Batch>| #[trigger]
        batched(gs, tracks, loose, tracks.len() as int) && bs.len() == gs.len() && forall|i: int|
            0 <= i < gs.len() ==> import_batch_fits(#[trigger] bs[i], gs[i], tracks, tags, loose);
    let n = gs.len() as int;
    lemma_in_batches(gs, tracks, loose, n);
    lemma_batch_total(bs, gs, tracks, tags, loose, n);
    let all = in_batches(gs, n);
    let range = vstd::set_lib::set_int_range(0, tracks.len() as int);
    vstd::set_lib::lemma_int_range(0, tracks.len() as int);
    assert(gs.take(n) =~= gs);
    assert(all.to_set() =~= range) by {
        assert forall|k: int| range.contains(k) implies all.to_set().contains(k) by {
            assert(has_batch(gs, batch_key(tracks[k], k, loose)));
            assert(all.contains(k));
        }
        assert forall|k: int| all.to_set().contains(k) implies range.contains(k) by {
            assert(all.contains(k));
        }
    }
    all.unique_seq_to_set();
}

proof fn lemma_batch_total(
    bs: Seq<ImportBatch>,
    gs: Seq<Batch>,
    tracks: Seq<Track>,
    tags: Seq<Option<TagData>>,
    loose: bool,
    n: int,
)
    requires
        batched(gs, tracks, loose, tracks.len() as int),
        bs.len() == gs.len(),
        forall|i: int|
            0 <= i < gs.len() ==> import_batch_fits(#[trigger] bs[i], gs[i], tracks, tags, loose),
        0 <= n <= gs.len(),
    ensures
        batch_total(bs, n) == in_batches(gs, n).len(),
    decreases n,
{
    if n > 0 {
        lemma_batch_total(bs, gs, tracks, tags, loose, n - 1);
        assert(import_batch_fits(bs[n - 1], gs[n - 1], tracks, tags, loose));
        assert(batch_fits(gs[n - 1], tracks, loose, tracks.len() as int));
        lemma_first_ordered(bs[n - 1].order@, gs[n - 1].indices@, tracks, tags);
    }
}

/// Every track falls into just one batch.
pub proof fn law_each_track_is_in_one_batch(
    r: Seq<Batch>,
    tracks: Seq<Track>,
    loose: bool,
    k: int,
)
    requires
        batched(r, tracks, loose, tracks.len() as int),
        0 <= k < tracks.len() <= usize::MAX,
    ensures
        exists|i: int| 0 <= i < r.len() && (#[trigger] r[i]).indices@.contains(k as usize),
        forall|i: int, j: int|
            0 <= i < r.len() && 0 <= j < r.len() && (#[trigger] r[i]).indices@.contains(k as usize)
                && (#[trigger] r[j]).indices@.contains(k as usize) ==> i == j,
{
    let key = batch_key(tracks[k], k, loose);
    assert(has_batch(r, key));
    let i = choose|i: int| 0 <= i < r.len() && (#[trigger] r[i]).key@ == key;
    assert(batch_fits(r[i], tracks, loose, tracks.len() as int));
    let x = choose|x: int| 0 <= x < r[i].indices@.len() && #[trigger] r[i].indices@[x] == k;
    assert(r[i].indices@[x] == k as usize);
    assert(r[i].indices@.contains(k as usize));
    assert forall|a: int, b: int|
        0 <= a < r.len() && 0 <= b < r.len() && (#[trigger] r[a]).indices@.contains(k as usize) && (
        #[trigger] r[b]).indices@.contains(k as usize) implies a == b by {
        assert(batch_fits(r[a], tracks, loose, tracks.len() as int));
        assert(batch_fits(r[b], tracks, loose, tracks.len() as int));
        let p = choose|p: int| 0 <= p < r[a].indices@.len() && r[a].indices@[p] == k as usize;
        let q = choose|q: int| 0 <= q < r[b].indices@.len() && r[b].indices@[q] == k as usize;
        assert(r[a].key@ == batch_key(tracks[r[a].indices@[p] as int], r[a].indices@[p] as int, loose));
        assert(r[b].key@ == batch_key(tracks[r[b].indices@[q] as int], r[b].indices@[q] as int, loose));
        if a < b {
            assert(r[a].key@ != r[b].key@);
        } else if b < a {
            assert(r[b].key@ != r[a].key@);
        }
    }
}

// ---------------------------------------------------------------------------
// Laws of albums

/// A name as albums and artists are compared: trimmed, in lower case.
pub open spec fn folded(s: Seq<char>) -> Seq<char> {
    crate::text::lowercased(crate::text::trimmed(s))
}

/// Whether a track of a batch has a tag with an album.
pub open spec fn has_album_tag(tags: Seq<Option<TagData>>, i: usize) -> bool {
    i < tags.len() && tags[i as int] is Some && tags[i as int]->0.album is Some
}

/// Where all tracks of a batch carry an album and an album artist, and these
/// agree but for case and blanks around them, the batch is one album, whatever
/// the artists of its tracks are.
pub proof fn law_album_artists_make_an_album(indices: Seq<usize>, tags: Seq<Option<TagData>>)
    requires
        indices.len() > 0,
        forall|k: int|
            0 <= k < indices.len() ==> has_album_tag(tags, #[trigger] indices[k])
                && tags[indices[k] as int]->0.album_artist is Some,
        forall|j: int, k: int|
            0 <= j < indices.len() && 0 <= k < indices.len() ==> {
                let a = tags[#[trigger] indices[j] as int]->0;
                let b = tags[#[trigger] indices[k] as int]->0;
                folded(a.album->0@) == folded(b.album->0@) && folded(a.album_artist->0@) == folded(
                    b.album_artist->0@,
                )
            },
    ensures
        one_album(indices, tags),
{
    assert(has_album_tag(tags, indices[0]));
    assert forall|k: int| 0 <= k < indices.len() implies album_identity(
        tag_at(tags, #[trigger] indices[k] as int),
    ) == album_identity(tag_at(tags, indices[0] as int)) by {
        assert(has_album_tag(tags, indices[k]));
    }
}

/// For tags without album artist the artist of the track counts: such a batch
/// is one album just where album and artist agree.
pub proof fn law_track_artists_count_without_album_artists(
    indices: Seq<usize>,
    tags: Seq<Option<TagData>>,
)
    requires
        indices.len() > 0,
        forall|k: int|
            0 <= k < indices.len() ==> has_album_tag(tags, #[trigger] indices[k])
                && tags[indices[k] as int]->0.album_artist is None
                && tags[indices[k] as int]->0.artist is Some,
    ensures
        one_album(indices, tags) <==> forall|j: int, k: int|
            0 <= j < indices.len() && 0 <= k < indices.len() ==> {
                let a = tags[#[trigger] indices[j] as int]->0;
                let b = tags[#[trigger] indices[k] as int]->0;
                folded(a.album->0@) == folded(b.album->0@) && folded(a.artist->0@) == folded(
                    b.artist->0@,
                )
            },
{
    assert(has_album_tag(tags, indices[0]));
    if one_album(indices, tags) {
        assert forall|j: int, k: int| 0 <= j < indices.len() && 0 <= k < indices.len() implies {
            let a = tags[#[trigger] indices[j] as int]->0;
            let b = tags[#[trigger] indices[k] as int]->0;
            folded(a.album->0@) == folded(b.album->0@) && folded(a.artist->0@) == folded(
                b.artist->0@,
            )
        } by {
            assert(has_album_tag(tags, indices[j]) && has_album_tag(tags, indices[k]));
            assert(album_identity(tag_at(tags, indices[j] as int)) == album_identity(
                tag_at(tags, indices[k] as int),
            ));
        }
    }
    if forall|j: int, k: int| 0 <= j < indices.len() && 0 <= k < indices.len() ==> {
        let a = tags[#[trigger] indices[j] as int]->0;
        let b = tags[#[trigger] indices[k] as int]->0;
        folded(a.album->0@) == folded(b.album->0@) && folded(a.artist->0@) == folded(b.artist->0@)
    } {
        assert forall|k: int| 0 <= k < indices.len() implies album_identity(
            tag_at(tags, #[trigger] indices[k] as int),
        ) == album_identity(tag_at(tags, indices[0] as int)) by {
            assert(has_album_tag(tags, indices[k]));
        }
    }
}

/// A batch is no album where a track has no album tag, where two albums
/// differ, or where two album artists differ, by more than case and blanks.
pub proof fn law_mixed_batches_are_no_album(
    indices: Seq<usize>,
    tags: Seq<Option<TagData>>,
    j: int,
    k: int,
)
    requires
        0 <= j < indices.len(),
        0 <= k < indices.len(),
        ({
            ||| !has_album_tag(tags, indices[j])
            ||| has_album_tag(tags, indices[k]) && {
                let a = tags[indices[j] as int]->0;
                let b = tags[indices[k] as int]->0;
                ||| folded(a.album->0@) != folded(b.album->0@)
                ||| a.album_artist is Some && b.album_artist is Some && folded(a.album_artist->0@)
                    != folded(b.album_artist->0@)
            }
        }),
    ensures
        !one_album(indices, tags),
{
    if one_album(indices, tags) {
        assert(album_identity(tag_at(tags, indices[j] as int)) == album_identity(
            tag_at(tags, indices[0] as int),
        ));
        assert(album_identity(tag_at(tags, indices[k] as int)) == album_identity(
            tag_at(tags, indices[0] as int),
        ));
    }
}

/// The tracks of one album enter the library by disc and track number, however
/// their artists differ: where the tags name one album and one album artist,
/// every track is numbered, and no two numbers are the same.
pub proof fn law_albums_enter_in_track_order(
    r: Seq<usize>,
    indices: Seq<usize>,
    tracks: Seq<Track>,
    tags: Seq<Option<TagData>>,
    album: Seq<char>,
    artist: Seq<char>,
    x: int,
    y: int,
)
    requires
        in_collection_order(r, indices, tracks, tags),
        indices.no_duplicates(),
        indices.len() <= u32::MAX,
        forall|k: int|
            0 <= k < indices.len() ==> {
                let i = #[trigger] indices[k];
                &&& has_album_tag(tags, i)
                &&& tags[i as int]->0.album->0@ == album
                &&& tags[i as int]->0.album_artist is Some
                &&& tags[i as int]->0.album_artist->0@ == artist
                &&& tracks[i as int].track_number is Some
                &&& tracks[i as int].track_number->0 > 0
            },
        forall|j: int, k: int|
            0 <= j < k < indices.len() ==> {
                let a = tracks[#[trigger] indices[j] as int];
                let b = tracks[#[trigger] indices[k] as int];
                a.track_number != b.track_number || (a.disc_number != b.disc_number && !(
                a.disc_number <= 1 && b.disc_number <= 1))
            },
        0 <= x < y < r.len(),
    ensures
        ({
            let a = tracks[r[x] as int];
            let b = tracks[r[y] as int];
            a.disc_number < b.disc_number || (a.disc_number == b.disc_number && a.track_number->0
                < b.track_number->0)
        }),
{
    let (items, o) = choose|items: Seq<CollectionOrderItem>, o: Seq<usize>| #[trigger]
        order_items_fit(items, indices, tracks, tags) && #[trigger]
        crate::sorting::stably_ordered(
            o,
            crate::collection_order::display_le(items),
            items.len() as int,
        ) && r == crate::collection_order::indices_in(items, o);
    let key = artist + seq!['\0'] + album;
    assert forall|k: int| 0 <= k < items.len() implies (#[trigger] items[k]).index == indices[k]
        && items[k].explicit_position is None && items[k].album_key is Some
        && items[k].album_key->0@ == key && items[k].disc_number == tracks[indices[k] as int].disc_number
        && items[k].track_number == tracks[indices[k] as int].track_number by {
        assert(order_item_fits(items[k], tracks, tags, indices[k], k));
        assert(has_album_tag(tags, indices[k]));
    }
    assert(crate::collection_order::all_of_key(items, key));
    assert(crate::collection_order::numbers_mean_something(items));
    assert(crate::collection_order::distinct_indices(items)) by {
        assert forall|i: int, j: int| 0 <= i < j < items.len() implies (#[trigger] items[i]).index
            != (#[trigger] items[j]).index by {
            assert(indices[i] != indices[j]);
        }
    }
    assert(crate::collection_order::numbers_tell_apart(items)) by {
        assert forall|i: int| 0 <= i < items.len() implies (#[trigger] items[i]).track_number is Some
            && items[i].track_number->0 > 0 by {
            assert(has_album_tag(tags, indices[i]));
        }
        assert forall|i: int, j: int| 0 <= i < j < items.len() implies {
            let a = #[trigger] items[i];
            let b = #[trigger] items[j];
            a.track_number != b.track_number || (a.disc_number != b.disc_number && !(a.disc_number
                <= 1 && b.disc_number <= 1))
        } by {
            let a = tracks[indices[i] as int];
            let b = tracks[indices[j] as int];
            assert(a.track_number != b.track_number || a.disc_number != b.disc_number);
        }
    }
    crate::collection_order::law_coherent_numbers_give_the_order(items, o, x, y);
    assert(items[o[x] as int].index == r[x] && items[o[y] as int].index == r[y]);
}

/// A batch with a track that has no number enters the library as scanned.
pub proof fn law_unnumbered_batches_enter_as_scanned(
    r: Seq<usize>,
    indices: Seq<usize>,
    tracks: Seq<Track>,
    tags: Seq<Option<TagData>>,
    k: int,
    x: int,
    y: int,
)
    requires
        in_collection_order(r, indices, tracks, tags),
        forall|i: int, j: int|
            0 <= i < j < indices.len() ==> #[trigger] indices[i] < #[trigger] indices[j],
        indices.len() <= u32::MAX,
        0 <= k < indices.len(),
        tracks[indices[k] as int].track_number is None,
        0 <= x < y < r.len(),
    ensures
        r[x] < r[y],
{
    let (items, o) = choose|items: Seq<CollectionOrderItem>, o: Seq<usize>| #[trigger]
        order_items_fit(items, indices, tracks, tags) && #[trigger]
        crate::sorting::stably_ordered(
            o,
            crate::collection_order::display_le(items),
            items.len() as int,
        ) && r == crate::collection_order::indices_in(items, o);
    assert forall|i: int| 0 <= i < items.len() implies (#[trigger] items[i]).index == indices[i]
        && items[i].explicit_position is None && items[i].added_order == i by {
        assert(order_item_fits(items[i], tracks, tags, indices[i], i));
    }
    assert(order_item_fits(items[k], tracks, tags, indices[k], k));
    assert(crate::collection_order::distinct_indices(items));
    crate::collection_order::law_without_coherent_numbers_items_play_as_added(items, o, x, y, k, k);
    let (a, b) = (o[x] as int, o[y] as int);
    assert(a != b);
    assert(items[a].added_order == a && items[b].added_order == b);
    assert(indices[a] < indices[b]);
}

/// An album that an import asks for is that of a tag in its batch: it has the
/// tag's title, album artist, year and genre, and counts the tracks of the
/// batch. A loose import asks for none.
pub proof fn law_albums_are_asked_for_as_tagged(
    b: ImportBatch,
    g: Batch,
    tracks: Seq<Track>,
    tags: Seq<Option<TagData>>,
    loose: bool,
)
    requires
        g.indices@.len() > 0,
        import_batch_fits(b, g, tracks, tags, loose),
    ensures
        loose ==> b.album is None,
        b.order@.len() == g.indices@.len(),
        b.album is Some ==> exists|k: int| #![trigger g.indices@[k]]
            0 <= k < g.indices@.len() && has_album_tag(tags, g.indices@[k]) && {
                let t = tags[g.indices@[k] as int]->0;
                let a = b.album->0;
                &&& a.title@ == t.album->0@
                &&& a.album_artist == t.album_artist
                &&& a.genre == t.genre
                &&& t.year is None ==> a.year is None
                &&& t.year is Some && t.year->0 <= i32::MAX ==> a.year is Some && a.year->0
                    == t.year->0
                &&& g.indices@.len() <= u32::MAX ==> a.track_total == g.indices@.len()
                &&& a.cover_dir == tracks[g.indices@[k] as int].source_dir
            },
{
    lemma_first_ordered(b.order@, g.indices@, tracks, tags);
    let k = choose|k: int| 0 <= k < g.indices@.len() && #[trigger] g.indices@[k] == b.order@[0];
    if b.album is Some {
        assert(tag_at(tags, g.indices@[k] as int) is Some);
        assert(has_album_tag(tags, g.indices@[k]));
    }
}

// ---------------------------------------------------------------------------
// Laws of batches

/// Tracks of one directory are imported as one batch, and tracks of different
/// directories are not, unless the import is loose.
pub proof fn law_directories_are_batches(
    r: Seq<Batch>,
    tracks: Seq<Track>,
    i: int,
    j: int,
    a: int,
    b: int,
)
    requires
        batched(r, tracks, false, tracks.len() as int),
        0 <= i < tracks.len() <= usize::MAX,
        0 <= j < tracks.len(),
        tracks[i].source_dir is Some,
        tracks[j].source_dir is Some,
        0 <= a < r.len(),
        0 <= b < r.len(),
        r[a].indices@.contains(i as usize),
        r[b].indices@.contains(j as usize),
    ensures
        a == b <==> tracks[i].source_dir->0@ == tracks[j].source_dir->0@,
{
    assert(batch_fits(r[a], tracks, false, tracks.len() as int));
    assert(batch_fits(r[b], tracks, false, tracks.len() as int));
    let x = r[a].indices@.index_of(i as usize);
    let y = r[b].indices@.index_of(j as usize);
    assert(r[a].indices@[x] == i as usize && r[b].indices@[y] == j as usize);
    assert(r[a].key@ == tracks[i].source_dir->0@);
    assert(r[b].key@ == tracks[j].source_dir->0@);
    if a < b {
        assert(r[a].key@ != r[b].key@);
    } else if b < a {
        assert(r[b].key@ != r[a].key@);
    }
}

/// Of a loose import every track is a batch of its own.
pub proof fn law_loose_tracks_are_batches_of_their_own(r: Seq<Batch>, tracks: Seq<Track>, a: int)
    requires
        batched(r, tracks, true, tracks.len() as int),
        0 <= a < r.len(),
    ensures
        r[a].indices@.len() == 1,
{
    let b = r[a];
    assert(batch_fits(b, tracks, true, tracks.len() as int));
    if b.indices@.len() > 1 {
        let i = b.indices@[0];
        let j = b.indices@[1];
        assert(i < j);
        let p = "__loose__"@;
        let (di, dj) = (crate::text::decimal(i as nat), crate::text::decimal(j as nat));
        assert(p + di == b.key@ && p + dj == b.key@);
        assert((p + di).skip(p.len() as int) =~= di);
        assert((p + dj).skip(p.len() as int) =~= dj);
        crate::text::law_decimals_read_back(i as nat);
        crate::text::law_decimals_read_back(j as nat);
    }
}

/// Batches enter the library in the order in which their first tracks were
/// scanned.
pub proof fn law_batches_follow_the_scan(r: Seq<Batch>, tracks: Seq<Track>, loose: bool, a: int, b: int)
    requires
        batched(r, tracks, loose, tracks.len() as int),
        0 <= a < b < r.len(),
    ensures
        forall|k: int| 0 <= k < r[b].indices@.len() ==> r[a].indices@[0] < #[trigger] r[b].indices@[k],
{
    assert(r[a].indices@[0] < r[b].indices@[0]);
    assert(batch_fits(r[b], tracks, loose, tracks.len() as int));
    assert forall|k: int| 0 <= k < r[b].indices@.len() implies r[a].indices@[0]
        < #[trigger] r[b].indices@[k] by {
        if k > 0 {
            assert(r[b].indices@[0] < r[b].indices@[k]);
        }
    }
}

// ---------------------------------------------------------------------------
// Laws of scans and covers

proof fn lemma_path_inserted(s: Seq<Seq<char>>, p: Seq<char>)
    ensures
        insert_path(s, p).len() == s.len() + 1,
        forall|q: Seq<char>| #[trigger]
            insert_path(s, p).contains(q) <==> s.contains(q) || q == p,
        (forall|i: int, j: int|
            0 <= i < j < s.len() ==> crate::sweep::path_order(#[trigger] s[i], #[trigger] s[j]) <= 0)
            ==> (forall|i: int, j: int|
            0 <= i < j < insert_path(s, p).len() ==> crate::sweep::path_order(
                #[trigger] insert_path(s, p)[i],
                #[trigger] insert_path(s, p)[j],
            ) <= 0),
    decreases s.len(),
{
    let r = insert_path(s, p);
    if s.len() == 0 || crate::sweep::path_order(s.last(), p) <= 0 {
        assert(r == s.push(p));
        assert forall|q: Seq<char>| #[trigger] r.contains(q) <==> s.contains(q) || q == p by {
            if s.contains(q) {
                assert(r[s.index_of(q)] == q);
            }
            if q == p {
                assert(r[s.len() as int] == p);
            }
        }
        if forall|i: int, j: int|
            0 <= i < j < s.len() ==> crate::sweep::path_order(#[trigger] s[i], #[trigger] s[j]) <= 0 {
            assert forall|i: int, j: int| 0 <= i < j < r.len() implies crate::sweep::path_order(
                #[trigger] r[i],
                #[trigger] r[j],
            ) <= 0 by {
                if j == s.len() && i < s.len() - 1 {
                    assert(crate::sweep::path_order(s[i], s[s.len() - 1]) <= 0);
                    crate::sweep::lemma_path_order_transitive(s[i], s.last(), p);
                }
            }
        }
    } else {
        let d = s.drop_last();
        lemma_path_inserted(d, p);
        let t = insert_path(d, p);
        assert(r == t.push(s.last()));
        assert forall|q: Seq<char>| #[trigger] r.contains(q) <==> s.contains(q) || q == p by {
            assert(t.contains(q) <==> d.contains(q) || q == p);
            if r.contains(q) {
                let x = r.index_of(q);
                if x < t.len() {
                    assert(t[x] == q);
                    if d.contains(q) {
                        assert(s[d.index_of(q)] == q);
                    }
                } else {
                    assert(s[s.len() - 1] == q);
                }
            }
            if s.contains(q) || q == p {
                if t.contains(q) {
                    assert(r[t.index_of(q)] == q);
                } else {
                    let x = s.index_of(q);
                    if x < d.len() {
                        assert(d[x] == q);
                    }
                    assert(r[t.len() as int] == q);
                }
            }
        }
        if forall|i: int, j: int|
            0 <= i < j < s.len() ==> crate::sweep::path_order(#[trigger] s[i], #[trigger] s[j]) <= 0 {
            assert forall|i: int, j: int| 0 <= i < j < d.len() implies crate::sweep::path_order(
                #[trigger] d[i],
                #[trigger] d[j],
            ) <= 0 by {
                assert(d[i] == s[i] && d[j] == s[j]);
            }
            assert forall|i: int, j: int| 0 <= i < j < r.len() implies crate::sweep::path_order(
                #[trigger] r[i],
                #[trigger] r[j],
            ) <= 0 by {
                if j == t.len() {
                    assert(t.contains(t[i]));
                    if t[i] == p {
                        crate::sweep::lemma_path_order_flip(p, s.last());
                    } else {
                        let x = d.index_of(t[i]);
                        assert(s[x] == t[i]);
                        assert(crate::sweep::path_order(s[x], s[s.len() - 1]) <= 0);
                    }
                } else {
                    assert(r[i] == t[i] && r[j] == t[j]);
                }
            }
        }
    }
}

/// A scan lists the audio files that were found, all of them and no others,
/// in ascending order of their paths.
pub proof fn law_scans_list_the_audio_files(found: Seq<Option<String>>, n: int)
    requires
        0 <= n <= found.len(),
    ensures
        forall|p: Seq<char>| #[trigger]
            audio_files(found, n).contains(p) <==> is_audio_file(p) && exists|i: int|
                0 <= i < n && (#[trigger] found[i]) is Some && found[i]->0@ == p,
        forall|i: int, j: int|
            0 <= i < j < audio_files(found, n).len() ==> crate::sweep::path_order(
                #[trigger] audio_files(found, n)[i],
                #[trigger] audio_files(found, n)[j],
            ) <= 0,
    decreases n,
{
    let r = audio_files(found, n);
    if n > 0 {
        law_scans_list_the_audio_files(found, n - 1);
        let before = audio_files(found, n - 1);
        let f = found[n - 1];
        if f is Some && is_audio_file(f->0@) {
            lemma_path_inserted(before, f->0@);
        }
        assert forall|p: Seq<char>| #[trigger] r.contains(p) <==> is_audio_file(p) && exists|i: int|
            0 <= i < n && (#[trigger] found[i]) is Some && found[i]->0@ == p by {
            assert(before.contains(p) <==> is_audio_file(p) && exists|i: int|
                0 <= i < n - 1 && (#[trigger] found[i]) is Some && found[i]->0@ == p);
            if f is Some && f->0@ == p {
                assert(found[n - 1] is Some);
            }
        }
    }
}

/// What a scan of the inboxes leaves are the files that the library does not
/// know, in the order in which they were found.
pub proof fn law_only_unknown_files_are_left(
    files: Seq<Seq<char>>,
    known: Seq<Seq<char>>,
    n: int,
)
    requires
        0 <= n <= files.len(),
    ensures
        forall|p: Seq<char>| #[trigger]
            unknown_files(files, known, n).contains(p) <==> files.take(n).contains(p)
                && !known.contains(p),
        (forall|i: int| 0 <= i < n ==> !known.contains(#[trigger] files[i])) ==> unknown_files(
            files,
            known,
            n,
        ) == files.take(n),
    decreases n,
{
    let r = unknown_files(files, known, n);
    if n > 0 {
        law_only_unknown_files_are_left(files, known, n - 1);
        let before = unknown_files(files, known, n - 1);
        let f = files[n - 1];
        assert(files.take(n) =~= files.take(n - 1).push(f));
        assert forall|p: Seq<char>| #[trigger] r.contains(p) <==> files.take(n).contains(p)
            && !known.contains(p) by {
            let t = files.take(n - 1);
            assert(before.contains(p) <==> t.contains(p) && !known.contains(p));
            if t.contains(p) {
                assert(files.take(n)[t.index_of(p)] == p);
            }
            if p == f {
                assert(files.take(n)[n - 1] == p);
            }
            if files.take(n).contains(p) && p != f {
                let x = files.take(n).index_of(p);
                assert(t[x] == p);
            }
            if before.contains(p) {
                if r.len() > before.len() {
                    assert(r[before.index_of(p)] == p);
                }
            }
            if r.contains(p) && !before.contains(p) {
                let x = r.index_of(p);
                if x < before.len() {
                    assert(before[x] == p);
                }
            }
            if p == f && !known.contains(f) {
                assert(r[before.len() as int] == f);
            }
        }
    } else {
        assert(files.take(n) =~= Seq::<Seq<char>>::empty());
    }
}

proof fn lemma_cover_named(files: Seq<Seq<char>>, name: Seq<char>, i: int)
    requires
        0 <= i,
    ensures
        match cover_named(files, name, i) {
            Some(p) => files.contains(p) && is_cover_named(p, name),
            None => forall|k: int| i <= k < files.len() ==> !is_cover_named(#[trigger] files[k], name),
        },
    decreases files.len() - i,
{
    if i < files.len() && !is_cover_named(files[i], name) {
        lemma_cover_named(files, name, i + 1);
    }
}

/// Whether a file is an image that may be a cover under this name, whatever
/// the case of its letters.
pub open spec fn is_image_called(p: Seq<char>, name: Seq<char>) -> bool {
    &&& crate::paths::stem_of_path(p) is Some
    &&& crate::paths::ext_of_path(p) is Some
    &&& crate::text::ascii_lowered(crate::paths::stem_of_path(p)->0) == name
    &&& ({
        let e = crate::text::ascii_lowered(crate::paths::ext_of_path(p)->0);
        e == "jpg"@ || e == "jpeg"@ || e == "png"@ || e == "webp"@
    })
}

/// A cover is one of the images beside the tracks. An image called `cover` is
/// taken before all others, then `folder`, `front`, `artwork`, `album` and
/// `albumart`; where there is none of these, there is no cover.
pub proof fn law_the_best_named_image_is_the_cover(files: Seq<Seq<char>>, q: Seq<char>)
    requires
        files.contains(q),
    ensures
        match best_cover(files, 0) {
            Some(p) => {
                &&& files.contains(p)
                &&& is_image_called(q, "cover"@) ==> is_image_called(p, "cover"@)
                &&& is_image_called(q, "folder"@) ==> is_image_called(p, "cover"@)
                    || is_image_called(p, "folder"@)
                &&& is_image_called(q, "front"@) ==> is_image_called(p, "cover"@)
                    || is_image_called(p, "folder"@) || is_image_called(p, "front"@)
                &&& is_image_called(q, "artwork"@) ==> is_image_called(p, "cover"@)
                    || is_image_called(p, "folder"@) || is_image_called(p, "front"@)
                    || is_image_called(p, "artwork"@)
                &&& is_image_called(q, "album"@) ==> is_image_called(p, "cover"@)
                    || is_image_called(p, "folder"@) || is_image_called(p, "front"@)
                    || is_image_called(p, "artwork"@) || is_image_called(p, "album"@)
                &&& is_image_called(p, "cover"@) || is_image_called(p, "folder"@)
                    || is_image_called(p, "front"@) || is_image_called(p, "artwork"@)
                    || is_image_called(p, "album"@) || is_image_called(p, "albumart"@)
            },
            None => !is_image_called(q, "cover"@) && !is_image_called(q, "folder"@)
                && !is_image_called(q, "front"@) && !is_image_called(q, "artwork"@)
                && !is_image_called(q, "album"@) && !is_image_called(q, "albumart"@),
        },
{
    reveal_with_fuel(best_cover, 8);
    let i = files.index_of(q);
    assert(files[i] == q);
    lemma_cover_named(files, "cover"@, 0);
    lemma_cover_named(files, "folder"@, 0);
    lemma_cover_named(files, "front"@, 0);
    lemma_cover_named(files, "artwork"@, 0);
    lemma_cover_named(files, "album"@, 0);
    lemma_cover_named(files, "albumart"@, 0);
    assert forall|p: Seq<char>, name: Seq<char>| #[trigger]
        is_image_called(p, name) == is_cover_named(p, name) by {}
    let c = cover_names();
    assert(c.len() == 6);
    assert(c[0] == "cover"@ && c[1] == "folder"@ && c[2] == "front"@);
    assert(c[3] == "artwork"@ && c[4] == "album"@ && c[5] == "albumart"@);
    assert(best_cover(files, 6) is None);
    if cover_named(files, c[0], 0) is Some {
        let p = cover_named(files, c[0], 0)->0;
        assert(best_cover(files, 0) == Some(p));
        assert(is_image_called(p, "cover"@));
    } else if cover_named(files, c[1], 0) is Some {
        let p = cover_named(files, c[1], 0)->0;
        assert(best_cover(files, 0) == Some(p));
        assert(is_image_called(p, "folder"@));
    } else if cover_named(files, c[2], 0) is Some {
        let p = cover_named(files, c[2], 0)->0;
        assert(best_cover(files, 0) == Some(p));
        assert(is_image_called(p, "front"@));
    } else if cover_named(files, c[3], 0) is Some {
        let p = cover_named(files, c[3], 0)->0;
        assert(best_cover(files, 0) == Some(p));
        assert(is_image_called(p, "artwork"@));
    } else if cover_named(files, c[4], 0) is Some {
        let p = cover_named(files, c[4], 0)->0;
        assert(best_cover(files, 0) == Some(p));
        assert(is_image_called(p, "album"@));
    } else if cover_named(files, c[5], 0) is Some {
        let p = cover_named(files, c[5], 0)->0;
        assert(best_cover(files, 0) == Some(p));
        assert(is_image_called(p, "albumart"@));
    }
}


/// A batch adds its tracks to those imported, and its album to those created
/// or to those that were there; a batch without album adds to neither.
pub proof fn law_batches_are_counted(r: ImportResult, tracks: u32)
    requires
        r.imported + tracks <= u32::MAX,
        r.albums_created < u32::MAX,
        r.albums_existing < u32::MAX,
    ensures
        ({
            let new = batch_result(r, Some(true), tracks);
            let old_one = batch_result(r, Some(false), tracks);
            let none = batch_result(r, None, tracks);
            &&& new.imported == r.imported + tracks && old_one.imported == r.imported + tracks
                && none.imported == r.imported + tracks
            &&& new.albums_created == r.albums_created + 1 && new.albums_existing
                == r.albums_existing
            &&& old_one.albums_existing == r.albums_existing + 1 && old_one.albums_created
                == r.albums_created
            &&& none.albums_created == r.albums_created && none.albums_existing
                == r.albums_existing
            &&& new.skipped_duplicate == r.skipped_duplicate && new.skipped_error
                == r.skipped_error && new.added_to_collection == r.added_to_collection
        }),
{
}

/// A known track that was added to the collection is counted there, one that
/// was in it already is not.
pub proof fn law_only_added_tracks_are_counted(r: ImportResult)
    requires
        r.added_to_collection < u32::MAX,
    ensures
        joined_result(r, true).added_to_collection == r.added_to_collection + 1,
        joined_result(r, false).added_to_collection == r.added_to_collection,
        joined_result(r, true).imported == r.imported,
{
}

} // verus!
