//! Tags: what is read from a file's tag, how its frames are shown, and how a
//! set of changes is applied.
use crate::error::KyokuError;
use crate::models::{AudioFormat, TagStatus, Track};
use crate::paths::{extension, file_stem, join, parent};
use crate::text::{begins_with, chars_of, parse_unsigned, same, text_rank, views};
use lofty::tag::{ItemKey, Tag};
use vstd::prelude::*;

verus! {

/// `lofty::tag::Tag`, a list of items.
#[verifier::external_type_specification]
#[verifier::external_body]
pub struct ExTag(Tag);

/// `lofty::tag::ItemKey`, the key of an item.
#[verifier::external_type_specification]
#[verifier::external_body]
pub struct ExItemKey(ItemKey);

/// The value of an item.
pub enum Held {
    Text(Seq<char>),
    Locator(Seq<char>),
    Binary,
}

/// The text of a value. A locator counts as text; bytes have none.
pub open spec fn held_text(h: Held) -> Option<Seq<char>> {
    match h {
        Held::Text(s) => Some(s),
        Held::Locator(s) => Some(s),
        Held::Binary => None,
    }
}

/// The value of an item.
#[derive(Debug)]
pub enum ItemText {
    Text(String),
    Locator(String),
    Binary,
}

/// A value by its characters.
pub open spec fn held(v: ItemText) -> Held {
    match v {
        ItemText::Text(s) => Held::Text(s@),
        ItemText::Locator(s) => Held::Locator(s@),
        ItemText::Binary => Held::Binary,
    }
}

/// What a tag holds: the key of every item in order, with its value.
pub uninterp spec fn tag_items(t: Tag) -> Seq<(ItemKey, Held)>;

/// What `Tag::push` answers for a key: whether the tag's format has it.
pub uninterp spec fn tag_takes(t: Tag, key: ItemKey) -> bool;

/// The name of a key, as its `Debug` form writes it.
pub uninterp spec fn key_text(key: ItemKey) -> Seq<char>;

/// What `char::is_uppercase` answers.
pub uninterp spec fn is_upper(c: char) -> bool;

/// Items without those of one key, in order.
pub open spec fn without(items: Seq<(ItemKey, Held)>, key: ItemKey) -> Seq<
    (ItemKey, Held),
>
    decreases items.len(),
{
    if items.len() == 0 {
        items
    } else if items.last().0 == key {
        without(items.drop_last(), key)
    } else {
        without(items.drop_last(), key).push(items.last())
    }
}

/// `Tag::items`: the items in order, each as its key and its value. The
/// bytes of a binary item are left out.
#[verifier::external_body]
fn list_items(tag: &Tag) -> (r: Vec<(ItemKey, ItemText)>)
    ensures
        r@.len() == tag_items(*tag).len(),
        forall|i: int|
            0 <= i < r@.len() ==> (#[trigger] r@[i]).0 == tag_items(*tag)[i].0 && held(r@[i].1)
                == tag_items(*tag)[i].1,
{
    let value = |v: &lofty::tag::ItemValue| match v {
        lofty::tag::ItemValue::Text(s) => ItemText::Text(s.clone()),
        lofty::tag::ItemValue::Locator(s) => ItemText::Locator(s.clone()),
        lofty::tag::ItemValue::Binary(_) => ItemText::Binary,
    };
    tag.items().map(|i| (i.key(), value(i.value()))).collect()
}

/// `Tag::remove_key` drops every item of a key and keeps the others in order.
#[verifier::external_body]
fn remove_items(tag: &mut Tag, key: ItemKey)
    ensures
        tag_items(*final(tag)) == without(tag_items(*old(tag)), key),
{
    tag.remove_key(key)
}

/// `Tag::push` appends an item if the tag's format has its key, and says
/// whether it did.
#[verifier::external_body]
fn push_text(tag: &mut Tag, key: ItemKey, value: &str) -> (r: bool)
    ensures
        r == tag_takes(*old(tag), key),
        tag_items(*final(tag)) == (if r {
            tag_items(*old(tag)).push((key, Held::Text(value@)))
        } else {
            tag_items(*old(tag))
        }),
{
    let value = lofty::tag::ItemValue::Text(value.to_owned());
    tag.push(lofty::tag::TagItem::new(key, value))
}

/// `Tag::push_unchecked` appends an item whatever its key.
#[verifier::external_body]
fn push_text_unchecked(tag: &mut Tag, key: ItemKey, value: &str)
    ensures
        tag_items(*final(tag)) == tag_items(*old(tag)).push((key, Held::Text(value@))),
{
    let value = lofty::tag::ItemValue::Text(value.to_owned());
    tag.push_unchecked(lofty::tag::TagItem::new(key, value))
}

/// The `Debug` form of a key, which is the name of its variant.
#[verifier::external_body]
fn name_of_key(key: ItemKey) -> (r: String)
    ensures
        r@ == key_text(key),
{
    format!("{:?}", key)
}

/// `char::is_uppercase`, a Unicode property that is only named here.
#[verifier::external_body]
fn uppercase(c: char) -> (r: bool)
    ensures
        r == is_upper(c),
{
    c.is_uppercase()
}

// ---------------------------------------------------------------------------
// Reading

/// What a file's tag says.
#[derive(Debug, Clone)]
pub struct TagData {
    pub title: Option<String>,
    pub artist: Option<String>,
    pub album: Option<String>,
    pub album_artist: Option<String>,
    pub year: Option<u32>,
    pub track_number: Option<u32>,
    pub disc_number: Option<u32>,
    pub genre: Option<String>,
    pub duration_ms: Option<u64>,
    /// The release that the file was matched to.
    pub mb_release_id: Option<String>,
}

/// The part of a file name that marks a copy being written.
pub open spec fn tmp_marker() -> Seq<char> {
    ".kyoku-tmp"@
}

/// The value of the first item under a key of this name.
pub open spec fn first_named(items: Seq<(ItemKey, Held)>, name: Seq<char>) -> Option<Held>
    decreases items.len(),
{
    if items.len() == 0 {
        None
    } else if key_text(items[0].0) == name {
        Some(items[0].1)
    } else {
        first_named(items.skip(1), name)
    }
}

/// The text of the first item under a key of this name, where it is one.
pub open spec fn text_named(items: Seq<(ItemKey, Held)>, name: Seq<char>) -> Option<Seq<char>> {
    match first_named(items, name) {
        Some(Held::Text(s)) => Some(s),
        _ => None,
    }
}

/// The number that the text under a name writes.
pub open spec fn number_named(items: Seq<(ItemKey, Held)>, name: Seq<char>) -> Option<nat> {
    match text_named(items, name) {
        Some(s) => crate::text::parsed(s, u32::MAX as nat),
        None => None,
    }
}

/// Whether an optional number is a given one.
pub open spec fn is_number(r: Option<u32>, n: Option<nat>) -> bool {
    match r {
        Some(v) => n == Some(v as nat),
        None => n is None,
    }
}

/// The items of a tag, or none where there is no tag.
pub open spec fn items_of(tag: Option<&Tag>) -> Seq<(ItemKey, Held)> {
    match tag {
        Some(t) => tag_items(*t),
        None => Seq::empty(),
    }
}

/// The listed items are the given ones.
spec fn lists(listed: Seq<(ItemKey, ItemText)>, items: Seq<(ItemKey, Held)>) -> bool {
    listed.len() == items.len() && forall|k: int|
        0 <= k < listed.len() ==> (#[trigger] listed[k]).0 == items[k].0 && held(listed[k].1)
            == items[k].1
}

fn find_text(listed: &Vec<(ItemKey, ItemText)>, name: &str, Ghost(items): Ghost<
    Seq<(ItemKey, Held)>,
>) -> (r: Option<String>)
    requires
        lists(listed@, items),
    ensures
        crate::text::opt_view(r) == text_named(items, name@),
{
    let n: usize = listed.len();
    let mut i: usize = 0;
    assert(items.skip(0) =~= items);
    while i < n
        invariant
            i <= n,
            n == listed@.len(),
            lists(listed@, items),
            first_named(items, name@) == first_named(items.skip(i as int), name@),
        decreases n - i,
    {
        assert(listed@[i as int].0 == items[i as int].0);
        assert(items.skip(i as int)[0] == items[i as int]);
        assert(items.skip(i as int).skip(1) =~= items.skip(i + 1));
        let key = name_of_key(listed[i].0);
        if same(key.as_str(), name) {
            return match &listed[i].1 {
                ItemText::Text(s) => Some(s.clone()),
                _ => None,
            };
        }
        i += 1;
    }
    None
}

fn find_number(listed: &Vec<(ItemKey, ItemText)>, name: &str, Ghost(items): Ghost<
    Seq<(ItemKey, Held)>,
>) -> (r: Option<u32>)
    requires
        lists(listed@, items),
    ensures
        is_number(r, number_named(items, name@)),
{
    match find_text(listed, name, Ghost(items)) {
        Some(s) => match parse_unsigned(s.as_str(), u32::MAX as u64) {
            Some(n) => Some(n as u32),
            None => None,
        },
        None => None,
    }
}

/// What a file's tag says, and how long the file lasts. A file without a tag
/// says nothing.
pub fn tag_data(tag: Option<&Tag>, duration_ms: u64) -> (r: TagData)
    ensures
        crate::text::opt_view(r.title) == text_named(items_of(tag), "TrackTitle"@),
        crate::text::opt_view(r.artist) == text_named(items_of(tag), "TrackArtist"@),
        crate::text::opt_view(r.album) == text_named(items_of(tag), "AlbumTitle"@),
        crate::text::opt_view(r.album_artist) == text_named(items_of(tag), "AlbumArtist"@),
        is_number(r.year, number_named(items_of(tag), "Year"@)),
        is_number(r.track_number, number_named(items_of(tag), "TrackNumber"@)),
        is_number(r.disc_number, number_named(items_of(tag), "DiscNumber"@)),
        crate::text::opt_view(r.genre) == text_named(items_of(tag), "Genre"@),
        r.duration_ms == Some(duration_ms),
        crate::text::opt_view(r.mb_release_id) == text_named(
            items_of(tag),
            "MusicBrainzReleaseId"@,
        ),
{
    let listed = match tag {
        Some(t) => list_items(t),
        None => Vec::new(),
    };
    let ghost items = items_of(tag);
    TagData {
        title: find_text(&listed, "TrackTitle", Ghost(items)),
        artist: find_text(&listed, "TrackArtist", Ghost(items)),
        album: find_text(&listed, "AlbumTitle", Ghost(items)),
        album_artist: find_text(&listed, "AlbumArtist", Ghost(items)),
        year: find_number(&listed, "Year", Ghost(items)),
        track_number: find_number(&listed, "TrackNumber", Ghost(items)),
        disc_number: find_number(&listed, "DiscNumber", Ghost(items)),
        genre: find_text(&listed, "Genre", Ghost(items)),
        duration_ms: Some(duration_ms),
        mb_release_id: find_text(&listed, "MusicBrainzReleaseId", Ghost(items)),
    }
}

/// The extension of a path, or nothing.
pub open spec fn ext_or_empty(p: Seq<char>) -> Seq<char> {
    match crate::paths::ext_of_path(p) {
        Some(e) => e,
        None => Seq::empty(),
    }
}

/// Whether a file may be read as a track: it is there, and its extension is
/// that of a supported format.
pub fn check_readable(path: &str, exists: bool) -> (r: Result<AudioFormat, KyokuError>)
    ensures
        ({
            let known = crate::models::known_format(crate::text::lowercased(ext_or_empty(path@)));
            match r {
                Ok(f) => exists && known == Some(f),
                Err(KyokuError::FileNotFound { path: p }) => !exists && p@ == path@,
                Err(KyokuError::UnsupportedFormat { ext }) => exists && known is None && ext@
                    == ext_or_empty(path@),
                Err(_) => false,
            }
        }),
{
    if !exists {
        return Err(KyokuError::FileNotFound { path: path.to_owned() });
    }
    let ext = match extension(path) {
        Some(e) => e,
        None => String::new(),
    };
    let format = AudioFormat::from_extension(ext.as_str());
    if !format.is_supported() {
        return Err(KyokuError::UnsupportedFormat { ext });
    }
    Ok(format)
}

/// The title of a track: that of the tag, else the name of the file.
pub open spec fn title_of(path: Seq<char>, title: Option<String>) -> Seq<char> {
    match title {
        Some(t) => t@,
        None => match crate::paths::stem_of_path(path) {
            Some(s) => s,
            None => "Unknown"@,
        },
    }
}

/// The track that a file's tag and audio properties make.
pub fn track_of(
    path: &str,
    format: AudioFormat,
    tags: TagData,
    bitrate: Option<u32>,
    sample_rate: Option<u32>,
) -> (r: Track)
    ensures
        r.id is None,
        r.album_id is None,
        r.title@ == title_of(path@, tags.title),
        r.artist == tags.artist,
        r.track_number == tags.track_number,
        r.disc_number == (match tags.disc_number {
            Some(n) => n,
            None => 1,
        }),
        r.duration_ms == tags.duration_ms,
        r.mbid is None,
        r.file_path@ == path@,
        r.file_format == format,
        r.bitrate == bitrate,
        r.sample_rate == sample_rate,
        r.tag_status == TagStatus::Unmatched,
        crate::text::opt_view(r.source_dir) == crate::paths::parent_of(path@),
{
    let title = match tags.title {
        Some(t) => t,
        None => match file_stem(path) {
            Some(s) => s,
            None => "Unknown".to_owned(),
        },
    };
    Track {
        id: None,
        album_id: None,
        title,
        artist: tags.artist,
        track_number: tags.track_number,
        disc_number: match tags.disc_number {
            Some(n) => n,
            None => 1,
        },
        duration_ms: tags.duration_ms,
        mbid: None,
        file_path: path.to_owned(),
        file_format: format,
        bitrate,
        sample_rate,
        tag_status: TagStatus::Unmatched,
        source_dir: parent(path),
    }
}

// ---------------------------------------------------------------------------
// Frames

/// One frame of a tag, as the editor shows it.
#[derive(Debug)]
pub struct FrameEntry {
    pub group: FrameGroup,
    pub key: ItemKey,
    pub display_name: String,
    /// Every value of the frame.
    pub values: Vec<String>,
}

/// The kind of a frame.
#[derive(Debug, Clone, Copy, PartialEq, Eq, Structural)]
pub enum FrameGroup {
    Standard,
    MusicBrainz,
    ReplayGain,
}

impl FrameGroup {
    /// How the group is headed.
    pub open spec fn label_text(self) -> Seq<char> {
        match self {
            FrameGroup::Standard => "Standard"@,
            FrameGroup::MusicBrainz => "MusicBrainz"@,
            FrameGroup::ReplayGain => "ReplayGain"@,
        }
    }

    /// How the group is headed.
    pub fn label(self) -> (r: &'static str)
        ensures
            r@ == self.label_text(),
    {
        match self {
            FrameGroup::Standard => "Standard",
            FrameGroup::MusicBrainz => "MusicBrainz",
            FrameGroup::ReplayGain => "ReplayGain",
        }
    }

    /// The place of the group among the others.
    pub open spec fn place(self) -> u8 {
        match self {
            FrameGroup::Standard => 0,
            FrameGroup::MusicBrainz => 1,
            FrameGroup::ReplayGain => 2,
        }
    }

    /// The place of the group among the others.
    pub fn sort_index(self) -> (r: u8)
        ensures
            r == self.place(),
    {
        match self {
            FrameGroup::Standard => 0,
            FrameGroup::MusicBrainz => 1,
            FrameGroup::ReplayGain => 2,
        }
    }
}

/// The group of a key, by its name.
pub open spec fn group_of(name: Seq<char>) -> FrameGroup {
    if crate::text::begins(name, "MusicBrainz"@) {
        FrameGroup::MusicBrainz
    } else if crate::text::begins(name, "ReplayGain"@) {
        FrameGroup::ReplayGain
    } else {
        FrameGroup::Standard
    }
}

/// The group of a key, by its name.
pub fn group_for(name: &str) -> (r: FrameGroup)
    ensures
        r == group_of(name@),
{
    if begins_with(name, "MusicBrainz") {
        FrameGroup::MusicBrainz
    } else if begins_with(name, "ReplayGain") {
        FrameGroup::ReplayGain
    } else {
        FrameGroup::Standard
    }
}

/// A name with a space in front of every capital but the first character.
pub open spec fn spaced(s: Seq<char>) -> Seq<char>
    decreases s.len(),
{
    if s.len() == 0 {
        s
    } else if s.len() > 1 && is_upper(s.last()) {
        spaced(s.drop_last()).push(' ').push(s.last())
    } else {
        spaced(s.drop_last()).push(s.last())
    }
}

/// A name in camel case with its words apart.
pub fn humanize(camel: &str) -> (r: String)
    ensures
        r@ == spaced(camel@),
{
    let v = chars_of(camel);
    let mut out = String::new();
    let mut i: usize = 0;
    while i < v.len()
        invariant
            i <= v@.len(),
            v@ == camel@,
            out@ == spaced(camel@.take(i as int)),
        decreases v@.len() - i,
    {
        assert(camel@.take(i + 1).drop_last() =~= camel@.take(i as int));
        if i > 0 && uppercase(v[i]) {
            out.push(' ');
        }
        out.push(v[i]);
        i += 1;
    }
    assert(camel@.take(i as int) =~= camel@);
    out
}

/// The label of the keys that have one of their own, by name.
pub open spec fn own_label(name: Seq<char>) -> Option<Seq<char>> {
    if name == "TrackTitle"@ { Some("Title"@) }
    else if name == "TrackArtist"@ { Some("Artist"@) }
    else if name == "TrackArtists"@ { Some("Artists"@) }
    else if name == "AlbumTitle"@ { Some("Album"@) }
    else if name == "AlbumArtist"@ { Some("Album Artist"@) }
    else if name == "AlbumArtists"@ { Some("Album Artists"@) }
    else if name == "Genre"@ { Some("Genre"@) }
    else if name == "Year"@ { Some("Year"@) }
    else if name == "RecordingDate"@ { Some("Recording Date"@) }
    else if name == "ReleaseDate"@ { Some("Release Date"@) }
    else if name == "TrackNumber"@ { Some("Track #"@) }
    else if name == "TrackTotal"@ { Some("Tracks Total"@) }
    else if name == "DiscNumber"@ { Some("Disc #"@) }
    else if name == "DiscTotal"@ { Some("Discs Total"@) }
    else if name == "Composer"@ { Some("Composer"@) }
    else if name == "Conductor"@ { Some("Conductor"@) }
    else if name == "Publisher"@ { Some("Publisher"@) }
    else if name == "Label"@ { Some("Label"@) }
    else if name == "Comment"@ { Some("Comment"@) }
    else if name == "Lyrics"@ { Some("Lyrics"@) }
    else if name == "Bpm"@ { Some("BPM"@) }
    else if name == "InitialKey"@ { Some("Key"@) }
    else if name == "Mood"@ { Some("Mood"@) }
    else if name == "Isrc"@ { Some("ISRC"@) }
    else if name == "Barcode"@ { Some("Barcode"@) }
    else if name == "CatalogNumber"@ { Some("Catalog #"@) }
    else if name == "EncodedBy"@ { Some("Encoded By"@) }
    else if name == "CopyrightMessage"@ { Some("Copyright"@) }
    else if name == "Language"@ { Some("Language"@) }
    else { None }
}

/// How a key is shown, by its name.
pub open spec fn shown(name: Seq<char>) -> Seq<char> {
    match own_label(name) {
        Some(l) => l,
        None => spaced(name),
    }
}

/// How the key with this name is shown: by a label of its own, else by its
/// name with the words apart.
pub fn label_for_name(name: &str) -> (r: String)
    ensures
        r@ == shown(name@),
{
    let known: &str = if same(name, "TrackTitle") { "Title" }
    else if same(name, "TrackArtist") { "Artist" }
    else if same(name, "TrackArtists") { "Artists" }
    else if same(name, "AlbumTitle") { "Album" }
    else if same(name, "AlbumArtist") { "Album Artist" }
    else if same(name, "AlbumArtists") { "Album Artists" }
    else if same(name, "Genre") { "Genre" }
    else if same(name, "Year") { "Year" }
    else if same(name, "RecordingDate") { "Recording Date" }
    else if same(name, "ReleaseDate") { "Release Date" }
    else if same(name, "TrackNumber") { "Track #" }
    else if same(name, "TrackTotal") { "Tracks Total" }
    else if same(name, "DiscNumber") { "Disc #" }
    else if same(name, "DiscTotal") { "Discs Total" }
    else if same(name, "Composer") { "Composer" }
    else if same(name, "Conductor") { "Conductor" }
    else if same(name, "Publisher") { "Publisher" }
    else if same(name, "Label") { "Label" }
    else if same(name, "Comment") { "Comment" }
    else if same(name, "Lyrics") { "Lyrics" }
    else if same(name, "Bpm") { "BPM" }
    else if same(name, "InitialKey") { "Key" }
    else if same(name, "Mood") { "Mood" }
    else if same(name, "Isrc") { "ISRC" }
    else if same(name, "Barcode") { "Barcode" }
    else if same(name, "CatalogNumber") { "Catalog #" }
    else if same(name, "EncodedBy") { "Encoded By" }
    else if same(name, "CopyrightMessage") { "Copyright" }
    else if same(name, "Language") { "Language" }
    else { return humanize(name); };
    known.to_owned()
}

/// How a key is shown.
pub fn display_name_for(key: ItemKey) -> (r: String)
    ensures
        r@ == shown(key_text(key)),
{
    let name = name_of_key(key);
    label_for_name(name.as_str())
}

/// The texts of the items that are shown under a name, in order.
pub open spec fn values_for(items: Seq<(ItemKey, Held)>, name: Seq<char>) -> Seq<
    Seq<char>,
>
    decreases items.len(),
{
    if items.len() == 0 {
        Seq::empty()
    } else {
        let before = values_for(items.drop_last(), name);
        let it = items.last();
        if held_text(it.1) is Some && shown(key_text(it.0)) == name {
            before.push(held_text(it.1)->0)
        } else {
            before
        }
    }
}

/// The key of the first item with a text that is shown under a name.
pub open spec fn first_key_for(
    items: Seq<(ItemKey, Held)>,
    name: Seq<char>,
) -> Option<ItemKey>
    decreases items.len(),
{
    if items.len() == 0 {
        None
    } else {
        let before = first_key_for(items.drop_last(), name);
        let it = items.last();
        if before is None && held_text(it.1) is Some && shown(key_text(it.0)) == name {
            Some(it.0)
        } else {
            before
        }
    }
}

/// The order of frames: by group, then by name.
pub open spec fn frame_order(a: FrameEntry, b: FrameEntry) -> int {
    crate::text::lex(
        crate::text::num_order(a.group.place() as int, b.group.place() as int),
        crate::text::text_order(a.display_name@, b.display_name@),
    )
}

/// Whether `f` is the frame that the items make under its name.
pub open spec fn frame_fits(f: FrameEntry, items: Seq<(ItemKey, Held)>) -> bool {
    &&& first_key_for(items, f.display_name@) == Some(f.key)
    &&& views(f.values@) == values_for(items, f.display_name@)
    &&& f.group == group_of(key_text(f.key))
}

/// Whether some frame has this name.
pub open spec fn has_frame(frames: Seq<FrameEntry>, name: Seq<char>) -> bool {
    exists|i: int| 0 <= i < frames.len() && (#[trigger] frames[i]).display_name@ == name
}

/// Whether `frames` shows every item with a text once, in order of group and
/// name.
pub open spec fn frames_fit(
    frames: Seq<FrameEntry>,
    items: Seq<(ItemKey, Held)>,
) -> bool {
    &&& forall|i: int, j: int|
        0 <= i < j < frames.len() ==> frame_order(#[trigger] frames[i], #[trigger] frames[j]) < 0
    &&& forall|i: int, j: int|
        0 <= i < j < frames.len() ==> (#[trigger] frames[i]).display_name@ != (
        #[trigger] frames[j]).display_name@
    &&& forall|i: int| 0 <= i < frames.len() ==> frame_fits(#[trigger] frames[i], items)
    &&& forall|k: int|
        0 <= k < items.len() && held_text((#[trigger] items[k]).1) is Some ==> has_frame(
            frames,
            shown(key_text(items[k].0)),
        )
}

fn frame_rank(a: &FrameEntry, b: &FrameEntry) -> (r: i8)
    ensures
        r == frame_order(*a, *b),
{
    let x = a.group.sort_index();
    let y = b.group.sort_index();
    if x < y {
        -1
    } else if x > y {
        1
    } else {
        text_rank(a.display_name.as_str(), b.display_name.as_str())
    }
}

proof fn lemma_frame_order(a: FrameEntry, b: FrameEntry, c: FrameEntry)
    ensures
        frame_order(a, b) < 0 && frame_order(b, c) < 0 ==> frame_order(a, c) < 0,
        frame_order(a, b) == -frame_order(b, a),
        a.display_name@ != b.display_name@ ==> frame_order(a, b) != 0,
{
    crate::text::lemma_text_order_flip(a.display_name@, b.display_name@);
    crate::text::lemma_text_order_flip(b.display_name@, c.display_name@);
    if crate::text::text_order(a.display_name@, b.display_name@) <= 0 && crate::text::text_order(
        b.display_name@,
        c.display_name@,
    ) <= 0 {
        crate::text::lemma_text_order_transitive(a.display_name@, b.display_name@, c.display_name@);
    }
}

proof fn lemma_first_key(items: Seq<(ItemKey, Held)>, name: Seq<char>)
    requires
        first_key_for(items, name) is Some,
    ensures
        exists|k: int|
            0 <= k < items.len() && held_text((#[trigger] items[k]).1) is Some && shown(key_text(items[k].0))
                == name,
    decreases items.len(),
{
    let before = items.drop_last();
    if first_key_for(before, name) is Some {
        lemma_first_key(before, name);
        let k = choose|k: int|
            0 <= k < before.len() && held_text((#[trigger] before[k]).1) is Some && shown(
                key_text(before[k].0),
            ) == name;
        assert(items[k] == before[k]);
    } else {
        assert(items[items.len() - 1] == items.last());
    }
}

proof fn lemma_no_values(items: Seq<(ItemKey, Held)>, name: Seq<char>)
    requires
        first_key_for(items, name) is None,
    ensures
        values_for(items, name) == Seq::<Seq<char>>::empty(),
    decreases items.len(),
{
    if items.len() > 0 {
        lemma_no_values(items.drop_last(), name);
    }
}

/// Puts one more item into its frame.
fn add_item(
    frames: &mut Vec<FrameEntry>,
    key: ItemKey,
    value: String,
    Ghost(items): Ghost<Seq<(ItemKey, Held)>>,
    Ghost(h): Ghost<Held>,
)
    requires
        frames_fit(old(frames)@, items),
        held_text(h) == Some(value@),
    ensures
        frames_fit(final(frames)@, items.push((key, h))),
{
    let ghost was = frames@;
    let ghost now = items.push((key, h));
    let name = display_name_for(key);
    proof {
        assert(now.drop_last() =~= items);
        assert forall|n: Seq<char>| #[trigger] values_for(now, n) == (if n == name@ {
            values_for(items, n).push(value@)
        } else {
            values_for(items, n)
        }) by {}
        assert forall|n: Seq<char>| #[trigger] first_key_for(now, n) == (if n == name@
            && first_key_for(items, n) is None {
            Some(key)
        } else {
            first_key_for(items, n)
        }) by {}
    }
    let mut at: usize = 0;
    while at < frames.len() && !same(frames[at].display_name.as_str(), name.as_str())
        invariant
            at <= frames@.len(),
            frames@ == was,
            forall|k: int| 0 <= k < at ==> (#[trigger] was[k]).display_name@ != name@,
        decreases frames@.len() - at,
    {
        at += 1;
    }
    if at < frames.len() {
        let mut f = frames.remove(at);
        let ghost values = views(f.values@);
        f.values.push(value);
        assert(views(f.values@) =~= values.push(value@));
        frames.insert(at, f);
        proof {
            assert(frames@ =~= was.update(at as int, f));
            assert forall|i: int| 0 <= i < frames@.len() implies frame_fits(
                #[trigger] frames@[i],
                now,
            ) by {
                if i != at {
                    assert(frames@[i] == was[i]);
                    assert(frame_fits(was[i], items));
                    if i < at {
                        assert(was[i].display_name@ != was[at as int].display_name@);
                    } else {
                        assert(was[at as int].display_name@ != was[i].display_name@);
                    }
                } else {
                    assert(frame_fits(was[i], items));
                }
            }
            assert forall|i: int, j: int| 0 <= i < j < frames@.len() implies frame_order(
                #[trigger] frames@[i],
                #[trigger] frames@[j],
            ) < 0 && frames@[i].display_name@ != frames@[j].display_name@ by {
                assert(frame_order(was[i], was[j]) < 0);
                assert(was[i].display_name@ != was[j].display_name@);
            }
            assert forall|n: Seq<char>| #[trigger] has_frame(was, n) implies has_frame(frames@, n) by {
                let i = choose|i: int| 0 <= i < was.len() && (#[trigger] was[i]).display_name@ == n;
                assert(frames@[i].display_name@ == n);
            }
            assert(frames@[at as int].display_name@ == name@);
        }
    } else {
        let key_name = name_of_key(key);
        let mut values: Vec<String> = Vec::new();
        values.push(value);
        let f = FrameEntry { group: group_for(key_name.as_str()), key, display_name: name, values };
        proof {
            if first_key_for(items, name@) is Some {
                lemma_first_key(items, name@);
                let k = choose|k: int|
                    0 <= k < items.len() && held_text((#[trigger] items[k]).1) is Some && shown(
                        key_text(items[k].0),
                    ) == name@;
                assert(has_frame(was, name@));
            }
            lemma_no_values(items, name@);
            assert(views(f.values@) =~= values_for(now, name@));
        }
        let mut to: usize = 0;
        while to < frames.len() && frame_rank(&frames[to], &f) < 0
            invariant
                to <= frames@.len(),
                frames@ == was,
                forall|k: int| 0 <= k < to ==> frame_order(#[trigger] was[k], f) < 0,
            decreases frames@.len() - to,
        {
            to += 1;
        }
        proof {
            assert forall|k: int| to <= k < was.len() implies frame_order(f, #[trigger] was[k]) < 0 by {
                lemma_frame_order(was[to as int], f, f);
                assert(was[to as int].display_name@ != name@);
                if k > to {
                    assert(frame_order(was[to as int], was[k]) < 0);
                    lemma_frame_order(f, was[to as int], was[k]);
                }
            }
        }
        frames.insert(to, f);
        proof {
            assert forall|i: int, j: int| 0 <= i < j < frames@.len() implies frame_order(
                #[trigger] frames@[i],
                #[trigger] frames@[j],
            ) < 0 && frames@[i].display_name@ != frames@[j].display_name@ by {
                if i != to {
                    assert(frames@[i] == was[if i < to { i } else { i - 1 }]);
                }
                if j != to {
                    assert(frames@[j] == was[if j < to { j } else { j - 1 }]);
                }
            }
            assert forall|i: int| 0 <= i < frames@.len() implies frame_fits(
                #[trigger] frames@[i],
                now,
            ) by {
                if i != to {
                    let w = if i < to { i } else { i - 1 };
                    assert(frames@[i] == was[w]);
                    assert(frame_fits(was[w], items));
                }
            }
            assert forall|n: Seq<char>| #[trigger] has_frame(was, n) implies has_frame(frames@, n) by {
                let i = choose|i: int| 0 <= i < was.len() && (#[trigger] was[i]).display_name@ == n;
                assert(frames@[if i < to { i } else { i + 1 }].display_name@ == n);
            }
            assert(frames@[to as int].display_name@ == name@);
        }
    }
    proof {
        assert(has_frame(frames@, name@));
        assert forall|k: int| 0 <= k < now.len() && held_text((#[trigger] now[k]).1) is Some implies has_frame(
            frames@,
            shown(key_text(now[k].0)),
        ) by {
            if k < items.len() {
                assert(now[k] == items[k]);
            }
        }
    }
}

/// The frames of a tag for the editor: values of one key together, standard
/// frames first, then those of the metadata service, then loudness, each
/// group by name. Binary items, such as covers, are not shown.
pub fn read_all_frames(tag: &Tag) -> (r: Vec<FrameEntry>)
    ensures
        frames_fit(r@, tag_items(*tag)),
{
    let listed = list_items(tag);
    let ghost items = tag_items(*tag);
    let mut frames: Vec<FrameEntry> = Vec::new();
    let mut i: usize = 0;
    while i < listed.len()
        invariant
            i <= listed@.len(),
            items.len() == listed@.len(),
            forall|k: int|
                0 <= k < listed@.len() ==> (#[trigger] listed@[k]).0 == items[k].0 && held(
                    listed@[k].1,
                ) == items[k].1,
            frames_fit(frames@, items.take(i as int)),
        decreases listed@.len() - i,
    {
        assert(listed@[i as int].0 == items[i as int].0);
        assert(items.take(i + 1) =~= items.take(i as int).push(items[i as int]));
        match &listed[i].1 {
            ItemText::Text(v) => {
                let ghost h = items[i as int].1;
                add_item(
                    &mut frames,
                    listed[i].0,
                    v.clone(),
                    Ghost(items.take(i as int)),
                    Ghost(h),
                );
            },
            ItemText::Locator(v) => {
                let ghost h = items[i as int].1;
                add_item(
                    &mut frames,
                    listed[i].0,
                    v.clone(),
                    Ghost(items.take(i as int)),
                    Ghost(h),
                );
            },
            ItemText::Binary => {
                let ghost now = items.take(i + 1);
                assert(now.drop_last() =~= items.take(i as int));
                assert forall|k: int| 0 <= k < frames@.len() implies frame_fits(
                    #[trigger] frames@[k],
                    now,
                ) by {
                    assert(frame_fits(frames@[k], items.take(i as int)));
                }
                assert forall|k: int| 0 <= k < now.len() && held_text((#[trigger] now[k]).1) is Some implies has_frame(
                    frames@,
                    shown(key_text(now[k].0)),
                ) by {
                    assert(now[k] == items.take(i as int)[k]);
                }
            },
        }
        i += 1;
    }
    assert(items.take(i as int) =~= items);
    frames
}

// ---------------------------------------------------------------------------
// Writing

/// Changes to a tag: keys to remove, then keys to give new values.
#[derive(Debug)]
pub struct TagChanges {
    pub set: Vec<(ItemKey, TagValue)>,
    pub unset: Vec<ItemKey>,
}

/// The value of a frame.
#[derive(Debug)]
pub enum TagValue {
    Text(String),
    MultiText(Vec<String>),
}

/// How many frames were written and removed.
#[derive(Debug, Clone, Copy, PartialEq, Eq, Structural)]
pub struct TagWriteReport {
    pub fields_written: usize,
    pub fields_removed: usize,
}

impl Default for TagChanges {
    fn default() -> (r: Self)
        ensures
            r.set@.len() == 0,
            r.unset@.len() == 0,
    {
        TagChanges { set: Vec::new(), unset: Vec::new() }
    }
}

impl TagChanges {
    /// Whether there is nothing to change.
    pub fn is_empty(&self) -> (r: bool)
        ensures
            r == (self.set@.len() == 0 && self.unset@.len() == 0),
    {
        self.set.is_empty() && self.unset.is_empty()
    }
}

/// The texts of `v` that are not empty.
pub open spec fn nonempty(v: Seq<Seq<char>>) -> Seq<Seq<char>>
    decreases v.len(),
{
    if v.len() == 0 {
        v
    } else if v.last().len() == 0 {
        nonempty(v.drop_last())
    } else {
        nonempty(v.drop_last()).push(v.last())
    }
}

/// The texts that a value writes; an empty text writes nothing.
pub open spec fn texts_of(v: TagValue) -> Seq<Seq<char>> {
    match v {
        TagValue::Text(s) => nonempty(seq![s@]),
        TagValue::MultiText(vs) => nonempty(views(vs@)),
    }
}

/// Items with one key's values appended.
pub open spec fn with_texts(
    items: Seq<(ItemKey, Held)>,
    key: ItemKey,
    texts: Seq<Seq<char>>,
) -> Seq<(ItemKey, Held)> {
    items + texts.map_values(|t: Seq<char>| (key, Held::Text(t)))
}

/// Items after the first `n` removals.
pub open spec fn after_unset(
    items: Seq<(ItemKey, Held)>,
    unset: Seq<ItemKey>,
    n: int,
) -> Seq<(ItemKey, Held)>
    decreases n,
{
    if n <= 0 { items } else { without(after_unset(items, unset, n - 1), unset[n - 1]) }
}

/// Items after the first `n` settings: the old values of each key go, and
/// the new ones come last.
pub open spec fn after_set(
    items: Seq<(ItemKey, Held)>,
    set: Seq<(ItemKey, TagValue)>,
    n: int,
) -> Seq<(ItemKey, Held)>
    decreases n,
{
    if n <= 0 {
        items
    } else {
        let (key, value) = set[n - 1];
        with_texts(without(after_set(items, set, n - 1), key), key, texts_of(value))
    }
}

/// How many of the first `n` settings write something.
pub open spec fn written(set: Seq<(ItemKey, TagValue)>, n: int) -> nat
    decreases n,
{
    if n <= 0 {
        0
    } else {
        written(set, n - 1) + if texts_of(set[n - 1].1).len() > 0 { 1nat } else { 0nat }
    }
}

fn keep_nonempty(v: &Vec<String>) -> (r: Vec<String>)
    ensures
        views(r@) == nonempty(views(v@)),
{
    let ghost all = views(v@);
    let mut out: Vec<String> = Vec::new();
    let mut i: usize = 0;
    assert(views(out@) =~= nonempty(all.take(0)));
    while i < v.len()
        invariant
            i <= v@.len(),
            all == views(v@),
            views(out@) == nonempty(all.take(i as int)),
        decreases v@.len() - i,
    {
        let ghost before = views(out@);
        assert(all.take(i + 1).drop_last() =~= all.take(i as int));
        assert(all.take(i + 1).last() == v@[i as int]@);
        if !v[i].as_str().is_empty() {
            out.push(v[i].clone());
            assert(views(out@) =~= before.push(v@[i as int]@));
        }
        i += 1;
    }
    assert(all.take(i as int) =~= all);
    out
}

fn value_texts(v: &TagValue) -> (r: Vec<String>)
    ensures
        views(r@) == texts_of(*v),
{
    match v {
        TagValue::Text(s) => {
            let mut one: Vec<String> = Vec::new();
            one.push(s.clone());
            assert(views(one@) =~= seq![s@]);
            keep_nonempty(&one)
        },
        TagValue::MultiText(vs) => keep_nonempty(vs),
    }
}

proof fn lemma_written_bound(set: Seq<(ItemKey, TagValue)>, n: int)
    requires
        0 <= n,
    ensures
        written(set, n) <= n,
    decreases n,
{
    if n > 0 {
        lemma_written_bound(set, n - 1);
    }
}

/// Applies changes to a tag: removals first, then settings. A setting
/// without any text is a removal.
pub fn apply_changes(tag: &mut Tag, changes: &TagChanges) -> (r: TagWriteReport)
    requires
        changes.set@.len() + changes.unset@.len() <= usize::MAX,
    ensures
        tag_items(*final(tag)) == after_set(
            after_unset(tag_items(*old(tag)), changes.unset@, changes.unset@.len() as int),
            changes.set@,
            changes.set@.len() as int,
        ),
        r.fields_written == written(changes.set@, changes.set@.len() as int),
        r.fields_written + r.fields_removed == changes.set@.len() + changes.unset@.len(),
{
    let ghost start = tag_items(*tag);
    let n: usize = changes.unset.len();
    let mut i: usize = 0;
    while i < n
        invariant
            i <= n,
            n == changes.unset@.len(),
            tag_items(*tag) == after_unset(start, changes.unset@, i as int),
        decreases n - i,
    {
        remove_items(tag, changes.unset[i]);
        i += 1;
    }
    let ghost middle = tag_items(*tag);
    let mut removed: usize = n;
    let mut count: usize = 0;
    let mut j: usize = 0;
    while j < changes.set.len()
        invariant
            j <= changes.set@.len(),
            changes.set@.len() + changes.unset@.len() <= usize::MAX,
            n == changes.unset@.len(),
            tag_items(*tag) == after_set(middle, changes.set@, j as int),
            count == written(changes.set@, j as int),
            count + removed == j + n,
        decreases changes.set@.len() - j,
    {
        let key = changes.set[j].0;
        let texts = value_texts(&changes.set[j].1);
        let ghost tv = texts_of(changes.set@[j as int].1);
        remove_items(tag, key);
        let ghost base = tag_items(*tag);
        if texts.len() == 0 {
            removed += 1;
            assert(with_texts(base, key, tv) =~= base);
        } else {
            let mut k: usize = 0;
            assert(with_texts(base, key, tv.take(0)) =~= base);
            while k < texts.len()
                invariant
                    k <= texts@.len(),
                    views(texts@) == tv,
                    tag_items(*tag) == with_texts(base, key, tv.take(k as int)),
                decreases texts@.len() - k,
            {
                if !push_text(tag, key, texts[k].as_str()) {
                    push_text_unchecked(tag, key, texts[k].as_str());
                }
                assert(tv[k as int] == texts@[k as int]@);
                assert(with_texts(base, key, tv.take(k + 1)) =~= with_texts(
                    base,
                    key,
                    tv.take(k as int),
                ).push((key, Held::Text(tv[k as int]))));
                k += 1;
            }
            assert(tv.take(k as int) =~= tv);
            count += 1;
        }
        j += 1;
    }
    TagWriteReport { fields_written: count, fields_removed: removed }
}

/// The file name of the copy beside a file. The extension is kept, because
/// the format is told by it.
pub open spec fn tmp_name(path: Seq<char>) -> Seq<char> {
    (match crate::paths::stem_of_path(path) {
        Some(s) => s,
        None => "tag"@,
    }) + ".kyoku-tmp."@ + (match crate::paths::ext_of_path(path) {
        Some(e) => e,
        None => "tmp"@,
    })
}

/// The copy beside a file that changes are written to.
pub open spec fn tmp_path(path: Seq<char>) -> Seq<char> {
    let name = tmp_name(path);
    if crate::paths::name_of_path(path) is Some {
        crate::paths::joined(
            match crate::paths::parent_of(path) {
                Some(d) => d,
                None => Seq::empty(),
            },
            name,
        )
    } else {
        crate::paths::joined(path, name)
    }
}

/// The copy beside a file that changes are written to.
pub fn tmp_path_for(path: &str) -> (r: String)
    ensures
        r@ == tmp_path(path@),
{
    let mut name = match file_stem(path) {
        Some(s) => s,
        None => "tag".to_owned(),
    };
    let ext = match extension(path) {
        Some(e) => e,
        None => "tmp".to_owned(),
    };
    name.append(".kyoku-tmp.");
    name.append(ext.as_str());
    if crate::paths::file_name(path).is_some() {
        let dir = match parent(path) {
            Some(d) => d,
            None => String::new(),
        };
        join(dir.as_str(), name.as_str())
    } else {
        join(path, name.as_str())
    }
}

// ---------------------------------------------------------------------------
// Laws

proof fn lemma_tmp_name(path: Seq<char>)
    ensures
        tmp_name(path).len() > 1,
        !tmp_name(path).contains('/'),
        crate::text::has_text(tmp_name(path), tmp_marker()),
{
    reveal_strlit("tag");
    reveal_strlit("tmp");
    reveal_strlit(".kyoku-tmp.");
    reveal_strlit(".kyoku-tmp");
    let name = tmp_name(path);
    let stem = match crate::paths::stem_of_path(path) {
        Some(s) => s,
        None => "tag"@,
    };
    let ext = match crate::paths::ext_of_path(path) {
        Some(e) => e,
        None => "tmp"@,
    };
    let mark = ".kyoku-tmp."@;
    assert(name == stem + mark + ext);
    if crate::paths::name_of_path(path) is Some {
        crate::paths::lemma_name_has_no_slash(path);
        lemma_last_of(crate::paths::name_of_path(path)->0, '.');
    }
    let whole = crate::paths::name_of_path(path);
    assert forall|k: int| 0 <= k < name.len() implies name[k] != '/' by {
        if k < stem.len() {
            assert(name[k] == stem[k]);
            if whole is Some {
                assert(whole->0[k] == stem[k]);
                assert(whole->0.contains(whole->0[k]));
            }
        } else if k < stem.len() + mark.len() {
            assert(name[k] == mark[k - stem.len()]);
        } else {
            let m = k - stem.len() - mark.len();
            assert(name[k] == ext[m]);
            if crate::paths::ext_of_path(path) is Some {
                let at = crate::paths::dot_at(whole->0)->0;
                assert(ext == whole->0.skip(at + 1));
                assert(whole->0[at + 1 + m] == ext[m]);
                assert(whole->0.contains(whole->0[at + 1 + m]));
            }
        }
    }
    assert(name.subrange(stem.len() as int, (stem.len() + tmp_marker().len()) as int)
        =~= tmp_marker());
    assert(crate::text::occurs_at(name, tmp_marker(), stem.len() as int));
}

proof fn lemma_last_of(s: Seq<char>, c: char)
    ensures
        crate::paths::last_of(s, c) is Some ==> 0 <= crate::paths::last_of(s, c)->0 < s.len(),
    decreases s.len(),
{
    if s.len() > 0 && s.last() != c {
        lemma_last_of(s.drop_last(), c);
    }
}

/// The copy that changes are written to carries the mark of such copies in
/// its name.
pub proof fn law_copies_are_marked(path: Seq<char>)
    ensures
        crate::paths::name_of_path(tmp_path(path)) == Some(tmp_name(path)),
        crate::text::has_text(tmp_name(path), tmp_marker()),
{
    lemma_tmp_name(path);
    let name = tmp_name(path);
    crate::paths::lemma_one_component(name);
    let dir = if crate::paths::name_of_path(path) is Some {
        match crate::paths::parent_of(path) {
            Some(d) => d,
            None => Seq::empty(),
        }
    } else {
        path
    };
    assert(tmp_path(path) == crate::paths::joined(dir, name));
    if dir.len() > 0 {
        crate::paths::lemma_joined(dir, name);
    } else {
        assert(crate::paths::joined(dir, name) =~= name);
    }
    assert(crate::paths::comps(tmp_path(path)).last() == name);
    assert(name.len() > 2) by {
        reveal_strlit(".kyoku-tmp.");
    }
}

/// The copy stands in the directory of the file, under another name, so that
/// it takes the file's place by a rename alone.
pub proof fn law_copies_stand_beside_the_file(path: Seq<char>)
    requires
        crate::paths::name_of_path(path) is Some,
    ensures
        crate::paths::comps(tmp_path(path)).drop_last() == crate::paths::comps(path).drop_last(),
        crate::paths::comps(tmp_path(path)) != crate::paths::comps(path),
{
    lemma_tmp_name(path);
    let name = tmp_name(path);
    crate::paths::lemma_one_component(name);
    crate::paths::lemma_spans(path);
    assert(crate::paths::parent_of(path) is Some) by {
        if crate::paths::absolute(path) && crate::paths::spans(path).len() == 1 {
            assert(crate::paths::comps(path).last() =~= seq!['/']);
        }
    }
    let dir = crate::paths::parent_of(path)->0;
    crate::paths::law_parent_drops_the_last_component(path);
    assert(tmp_path(path) == crate::paths::joined(dir, name));
    if dir.len() > 0 {
        crate::paths::lemma_joined(dir, name);
    } else {
        assert(crate::paths::joined(dir, name) =~= name);
        assert(crate::paths::comps(dir) =~= Seq::<Seq<char>>::empty());
    }
    assert(crate::paths::comps(tmp_path(path)) =~= crate::paths::comps(dir).push(name));
    assert(crate::paths::comps(tmp_path(path)).drop_last() =~= crate::paths::comps(dir));
    let own = crate::paths::name_of_path(path)->0;
    assert(name.len() > own.len()) by {
        reveal_strlit(".kyoku-tmp.");
        lemma_last_of(own, '.');
    }
    assert(crate::paths::comps(path).last() == own);
    assert(crate::paths::comps(tmp_path(path)).last() == name);
}

proof fn lemma_without(items: Seq<(ItemKey, Held)>, key: ItemKey, other: ItemKey)
    ensures
        key != other ==> only(without(items, key), other) == only(items, other),
        only(without(items, key), key) == Seq::<Held>::empty(),
    decreases items.len(),
{
    if items.len() > 0 {
        lemma_without(items.drop_last(), key, other);
        if items.last().0 != key {
            let w = without(items.drop_last(), key);
            assert(w.push(items.last()).drop_last() =~= w);
        }
    }
}

/// The values of one key, in order.
pub open spec fn only(items: Seq<(ItemKey, Held)>, key: ItemKey) -> Seq<Held>
    decreases items.len(),
{
    if items.len() == 0 {
        Seq::empty()
    } else if items.last().0 == key {
        only(items.drop_last(), key).push(items.last().1)
    } else {
        only(items.drop_last(), key)
    }
}

proof fn lemma_only_concat(
    items: Seq<(ItemKey, Held)>,
    key: ItemKey,
    texts: Seq<Seq<char>>,
    other: ItemKey,
)
    ensures
        only(with_texts(items, key, texts), other) == (if other == key {
            only(items, key) + texts.map_values(|t: Seq<char>| Held::Text(t))
        } else {
            only(items, other)
        }),
    decreases texts.len(),
{
    let all = with_texts(items, key, texts);
    if texts.len() == 0 {
        assert(all =~= items);
        assert(only(items, key) + texts.map_values(|t: Seq<char>| Held::Text(t)) =~= only(items, key));
    } else {
        lemma_only_concat(items, key, texts.drop_last(), other);
        assert(all.drop_last() =~= with_texts(items, key, texts.drop_last()));
        assert(all.last() == (key, Held::Text(texts.last())));
        if other == key {
            assert((only(items, key) + texts.drop_last().map_values(|t: Seq<char>| Held::Text(t))).push(
                Held::Text(texts.last()),
            ) =~= only(items, key) + texts.map_values(|t: Seq<char>| Held::Text(t)));
        }
    }
}

/// Changing one key sets just its values and leaves the values of every other
/// key as they were.
pub proof fn law_setting_a_key_changes_only_it(
    items: Seq<(ItemKey, Held)>,
    key: ItemKey,
    value: TagValue,
    other: ItemKey,
)
    ensures
        only(after_set(items, seq![(key, value)], 1), key) == texts_of(value).map_values(
            |t: Seq<char>| Held::Text(t),
        ),
        other != key ==> only(after_set(items, seq![(key, value)], 1), other) == only(items, other),
{
    let base = after_set(items, seq![(key, value)], 0);
    assert(base == items);
    lemma_without(items, key, other);
    lemma_only_concat(without(items, key), key, texts_of(value), other);
    lemma_only_concat(without(items, key), key, texts_of(value), key);
    assert(Seq::<Held>::empty() + texts_of(value).map_values(
        |t: Seq<char>| Held::Text(t),
    ) =~= texts_of(value).map_values(|t: Seq<char>| Held::Text(t)));
}

/// Removing a key leaves no value of it, and the values of every other key
/// as they were.
pub proof fn law_unsetting_a_key_changes_only_it(
    items: Seq<(ItemKey, Held)>,
    key: ItemKey,
    other: ItemKey,
)
    ensures
        only(after_unset(items, seq![key], 1), key).len() == 0,
        other != key ==> only(after_unset(items, seq![key], 1), other) == only(items, other),
{
    assert(after_unset(items, seq![key], 0) == items);
    lemma_without(items, key, other);
}

proof fn lemma_without_named(items: Seq<(ItemKey, Held)>, key: ItemKey)
    requires
        forall|i: int|
            0 <= i < items.len() && key_text((#[trigger] items[i]).0) == key_text(key) ==> items[i].0
                == key,
    ensures
        forall|i: int|
            0 <= i < without(items, key).len() ==> key_text((#[trigger] without(items, key)[i]).0)
                != key_text(key),
    decreases items.len(),
{
    if items.len() > 0 {
        let prev = items.drop_last();
        assert forall|i: int|
            0 <= i < prev.len() && key_text((#[trigger] prev[i]).0) == key_text(key) implies prev[i].0
            == key by {
            assert(items[i] == prev[i]);
        }
        lemma_without_named(prev, key);
        assert(items[items.len() - 1] == items.last());
        let w = without(items, key);
        let v = without(prev, key);
        assert forall|i: int| 0 <= i < w.len() implies key_text((#[trigger] w[i]).0) != key_text(
            key,
        ) by {
            if i < v.len() {
                assert(w[i] == v[i]);
            }
        }
    }
}

proof fn lemma_named_past(items: Seq<(ItemKey, Held)>, last: (ItemKey, Held), name: Seq<char>)
    requires
        forall|i: int| 0 <= i < items.len() ==> key_text((#[trigger] items[i]).0) != name,
        key_text(last.0) == name,
    ensures
        first_named(items.push(last), name) == Some(last.1),
    decreases items.len(),
{
    let all = items.push(last);
    if items.len() == 0 {
        assert(all[0] == last);
    } else {
        assert(all[0] == items[0]);
        assert(all.skip(1) =~= items.skip(1).push(last));
        assert forall|i: int| 0 <= i < items.skip(1).len() implies key_text(
            (#[trigger] items.skip(1)[i]).0,
        ) != name by {
            assert(items.skip(1)[i] == items[i + 1]);
        }
        lemma_named_past(items.skip(1), last, name);
    }
}

/// What was written under a key is what is read under it.
pub proof fn law_written_text_is_read_back(
    items: Seq<(ItemKey, Held)>,
    key: ItemKey,
    value: TagValue,
)
    requires
        value is Text,
        value->Text_0@.len() > 0,
        forall|i: int|
            0 <= i < items.len() && key_text((#[trigger] items[i]).0) == key_text(key) ==> items[i].0
                == key,
    ensures
        text_named(after_set(items, seq![(key, value)], 1), key_text(key)) == Some(value->Text_0@),
{
    let s = value->Text_0@;
    assert(after_set(items, seq![(key, value)], 0) == items);
    lemma_without_named(items, key);
    let w = without(items, key);
    reveal_with_fuel(nonempty, 2);
    assert(seq![s].drop_last() =~= Seq::<Seq<char>>::empty());
    assert(texts_of(value) =~= seq![s]);
    assert(with_texts(w, key, texts_of(value)) =~= w.push((key, Held::Text(s))));
    lemma_named_past(w, (key, Held::Text(s)), key_text(key));
}

/// What was removed is not read any more.
pub proof fn law_removed_key_reads_as_nothing(items: Seq<(ItemKey, Held)>, key: ItemKey)
    requires
        forall|i: int|
            0 <= i < items.len() && key_text((#[trigger] items[i]).0) == key_text(key) ==> items[i].0
                == key,
    ensures
        text_named(after_unset(items, seq![key], 1), key_text(key)) is None,
{
    assert(after_unset(items, seq![key], 0) == items);
    lemma_without_named(items, key);
    lemma_none_named(without(items, key), key_text(key));
}

proof fn lemma_none_named(items: Seq<(ItemKey, Held)>, name: Seq<char>)
    requires
        forall|i: int| 0 <= i < items.len() ==> key_text((#[trigger] items[i]).0) != name,
    ensures
        first_named(items, name) is None,
    decreases items.len(),
{
    if items.len() > 0 {
        assert forall|i: int| 0 <= i < items.skip(1).len() implies key_text(
            (#[trigger] items.skip(1)[i]).0,
        ) != name by {
            assert(items.skip(1)[i] == items[i + 1]);
        }
        lemma_none_named(items.skip(1), name);
    }
}


// ---------------------------------------------------------------------------
// Laws of what is shown

/// Frames are shown in groups: those of the standard first, then those of the
/// music database, then those of loudness; within a group by name.
pub proof fn law_frames_are_shown_in_groups(
    frames: Seq<FrameEntry>,
    items: Seq<(ItemKey, Held)>,
    i: int,
    j: int,
)
    requires
        frames_fit(frames, items),
        0 <= i < j < frames.len(),
    ensures
        frames[j].group is Standard ==> frames[i].group is Standard,
        frames[i].group is ReplayGain ==> frames[j].group is ReplayGain,
        frames[i].group == frames[j].group ==> crate::text::text_order(
            frames[i].display_name@,
            frames[j].display_name@,
        ) < 0,
{
    assert(frame_order(frames[i], frames[j]) < 0);
}

/// The name of a key tells its group.
pub proof fn law_names_tell_the_group(rest: Seq<char>, name: Seq<char>)
    ensures
        group_of("MusicBrainz"@ + rest) is MusicBrainz,
        group_of("ReplayGain"@ + rest) is ReplayGain,
        name.len() == 0 || (name[0] != 'M' && name[0] != 'R') ==> group_of(name) is Standard,
{
    let m = "MusicBrainz"@;
    let r = "ReplayGain"@;
    assert(m.len() == 11 && m[0] == 'M') by {
        reveal_strlit("MusicBrainz");
    }
    assert(r.len() == 10 && r[0] == 'R') by {
        reveal_strlit("ReplayGain");
    }
    assert((m + rest).take(11) =~= m);
    assert((r + rest).take(10) =~= r);
    assert((r + rest)[0] == 'R');
    if crate::text::begins(r + rest, m) {
        assert((r + rest).take(11)[0] == 'R');
    }
    if crate::text::begins(name, m) {
        assert(name.take(11)[0] == name[0]);
    }
    if crate::text::begins(name, r) {
        assert(name.take(10)[0] == name[0]);
    }
}

proof fn lemma_values_add(
    a: Seq<(ItemKey, Held)>,
    b: Seq<(ItemKey, Held)>,
    name: Seq<char>,
)
    ensures
        values_for(a + b, name) == values_for(a, name) + values_for(b, name),
        first_key_for(a + b, name) == (if first_key_for(a, name) is Some {
            first_key_for(a, name)
        } else {
            first_key_for(b, name)
        }),
    decreases b.len(),
{
    if b.len() == 0 {
        assert(a + b =~= a);
        assert(values_for(a, name) + values_for(b, name) =~= values_for(a, name));
    } else {
        let d = b.drop_last();
        lemma_values_add(a, d, name);
        assert((a + b).drop_last() =~= a + d);
        assert((a + b).last() == b.last());
        if held_text(b.last().1) is Some {
            let t = held_text(b.last().1)->0;
            assert((values_for(a, name) + values_for(d, name)).push(t) =~= values_for(a, name)
                + values_for(d, name).push(t));
        }
    }
}

/// The values shown under a name are the texts of its keys in the order of
/// the tag; its key is the first of them. What is neither text nor address is
/// not shown.
pub proof fn law_values_are_shown_in_the_order_of_the_tag(
    a: Seq<(ItemKey, Held)>,
    b: Seq<(ItemKey, Held)>,
    key: ItemKey,
    text: Seq<char>,
    name: Seq<char>,
)
    ensures
        values_for(a + b, name) == values_for(a, name) + values_for(b, name),
        first_key_for(a, name) is Some ==> first_key_for(a + b, name) == first_key_for(a, name),
        shown(key_text(key)) == name ==> values_for(seq![(key, Held::Text(text))], name) == seq![
            text,
        ] && values_for(seq![(key, Held::Locator(text))], name) == seq![text] && first_key_for(
            seq![(key, Held::Text(text))],
            name,
        ) == Some(key),
        shown(key_text(key)) != name ==> values_for(seq![(key, Held::Text(text))], name).len() == 0,
        values_for(seq![(key, Held::Binary)], name).len() == 0,
{
    lemma_values_add(a, b, name);
    let none = Seq::<Seq<char>>::empty();
    let t = seq![(key, Held::Text(text))];
    let l = seq![(key, Held::Locator(text))];
    let x = seq![(key, Held::Binary)];
    let empty = Seq::<(ItemKey, Held)>::empty();
    assert(t.drop_last() =~= empty && l.drop_last() =~= empty && x.drop_last() =~= empty);
    assert(values_for(empty, name) =~= none);
    assert(none.push(text) =~= seq![text]);
    assert(first_key_for(empty, name) is None);
    assert(t.last() == (key, Held::Text(text)));
    assert(l.last() == (key, Held::Locator(text)));
    assert(x.last() == (key, Held::Binary));
    assert(held_text(Held::Text(text)) == Some(text));
    assert(held_text(Held::Locator(text)) == Some(text));
    assert(values_for(t, name) == if shown(key_text(key)) == name { none.push(text) } else { none });
    assert(values_for(l, name) == if shown(key_text(key)) == name { none.push(text) } else { none });
}

/// Names without a label of their own are shown with a space in front of each
/// capital letter but the first.
pub proof fn law_capitals_are_set_apart(s: Seq<char>, c: char)
    ensures
        s.len() > 0 && is_upper(c) ==> spaced(s.push(c)) == spaced(s) + seq![' ', c],
        s.len() == 0 || !is_upper(c) ==> spaced(s.push(c)) == spaced(s) + seq![c],
{
    assert(s.push(c).drop_last() =~= s);
    assert(spaced(s).push(' ').push(c) =~= spaced(s) + seq![' ', c]);
    assert(spaced(s).push(c) =~= spaced(s) + seq![c]);
}

/// A track without a title is called after its file.
pub proof fn law_files_without_title_are_called_after_their_name(
    path: Seq<char>,
    title: Option<String>,
)
    ensures
        title is Some ==> title_of(path, title) == title->0@,
        title is None && crate::paths::stem_of_path(path) is Some ==> title_of(path, title)
            == crate::paths::stem_of_path(path)->0,
{
}

/// Of several items of one name the first counts, and only where it is text.
pub proof fn law_the_first_item_of_a_name_counts(
    items: Seq<(ItemKey, Held)>,
    name: Seq<char>,
    k: int,
)
    requires
        0 <= k < items.len(),
        key_text(items[k].0) == name,
        forall|j: int| 0 <= j < k ==> key_text((#[trigger] items[j]).0) != name,
    ensures
        first_named(items, name) == Some(items[k].1),
        items[k].1 is Text ==> text_named(items, name) == Some(items[k].1->Text_0),
        !(items[k].1 is Text) ==> text_named(items, name) is None,
    decreases items.len(),
{
    if k > 0 {
        let rest = items.skip(1);
        assert(key_text(items[0].0) != name);
        assert(rest[k - 1] == items[k]);
        assert forall|j: int| 0 <= j < k - 1 implies key_text((#[trigger] rest[j]).0) != name by {
            assert(rest[j] == items[j + 1]);
        }
        law_the_first_item_of_a_name_counts(rest, name, k - 1);
    }
}

proof fn lemma_nonempty_add(a: Seq<Seq<char>>, b: Seq<Seq<char>>)
    ensures
        nonempty(a + b) == nonempty(a) + nonempty(b),
    decreases b.len(),
{
    if b.len() == 0 {
        assert(a + b =~= a);
        assert(nonempty(a) + nonempty(b) =~= nonempty(a));
    } else {
        lemma_nonempty_add(a, b.drop_last());
        assert((a + b).drop_last() =~= a + b.drop_last());
        assert((a + b).last() == b.last());
        assert((nonempty(a) + nonempty(b.drop_last())).push(b.last()) =~= nonempty(a) + nonempty(
            b.drop_last(),
        ).push(b.last()));
    }
}

/// The values that are written are those that are not empty, in order.
pub proof fn law_empty_values_are_not_written(
    a: Seq<Seq<char>>,
    b: Seq<Seq<char>>,
    s: Seq<char>,
)
    ensures
        nonempty(a + b) == nonempty(a) + nonempty(b),
        s.len() > 0 ==> nonempty(seq![s]) == seq![s],
        s.len() == 0 ==> nonempty(seq![s]).len() == 0,
{
    lemma_nonempty_add(a, b);
    let one = seq![s];
    assert(one.drop_last() =~= Seq::<Seq<char>>::empty());
    assert(nonempty(one.drop_last()) =~= Seq::<Seq<char>>::empty());
    assert(Seq::<Seq<char>>::empty().push(s) =~= one);
}


/// The keys that have a label of their own, each with its label: these are
/// shown under it, and all others under their name, spaced.
pub open spec fn labels_as(name: Seq<char>, label: Seq<char>) -> bool {
    (name == "TrackTitle"@ && label == "Title"@)
    || (name == "TrackArtist"@ && label == "Artist"@)
    || (name == "TrackArtists"@ && label == "Artists"@)
    || (name == "AlbumTitle"@ && label == "Album"@)
    || (name == "AlbumArtist"@ && label == "Album Artist"@)
    || (name == "AlbumArtists"@ && label == "Album Artists"@)
    || (name == "Genre"@ && label == "Genre"@)
    || (name == "Year"@ && label == "Year"@)
    || (name == "RecordingDate"@ && label == "Recording Date"@)
    || (name == "ReleaseDate"@ && label == "Release Date"@)
    || (name == "TrackNumber"@ && label == "Track #"@)
    || (name == "TrackTotal"@ && label == "Tracks Total"@)
    || (name == "DiscNumber"@ && label == "Disc #"@)
    || (name == "DiscTotal"@ && label == "Discs Total"@)
    || (name == "Composer"@ && label == "Composer"@)
    || (name == "Conductor"@ && label == "Conductor"@)
    || (name == "Publisher"@ && label == "Publisher"@)
    || (name == "Label"@ && label == "Label"@)
    || (name == "Comment"@ && label == "Comment"@)
    || (name == "Lyrics"@ && label == "Lyrics"@)
    || (name == "Bpm"@ && label == "BPM"@)
    || (name == "InitialKey"@ && label == "Key"@)
    || (name == "Mood"@ && label == "Mood"@)
    || (name == "Isrc"@ && label == "ISRC"@)
    || (name == "Barcode"@ && label == "Barcode"@)
    || (name == "CatalogNumber"@ && label == "Catalog #"@)
    || (name == "EncodedBy"@ && label == "Encoded By"@)
    || (name == "CopyrightMessage"@ && label == "Copyright"@)
    || (name == "Language"@ && label == "Language"@)
}

/// A key with a label of its own is shown under it, and the others are not.
pub proof fn law_labels_are_shown_in_place_of_names(name: Seq<char>)
    ensures
        own_label(name) is Some ==> labels_as(name, shown(name)),
        (exists|label: Seq<char>| #[trigger] labels_as(name, label)) ==> own_label(name) is Some,
        (forall|label: Seq<char>| !#[trigger] labels_as(name, label)) ==> shown(name) == spaced(
            name,
        ),
{
    if own_label(name) is Some {
        assert(labels_as(name, shown(name)));
    }
}

} // verus!
