//! What goes into database queries and what is made of their rows: search
//! terms, filters, orders, appended positions, and the rows of the library.
use std::collections::HashMap;
use vstd::prelude::*;

use crate::collection_order::{
    display_le, effective_positions, indices_in, ordered_indices, position, CollectionOrderItem,
};
use crate::organizer::OrganizeFilter;
use crate::paths::{from_db_path, is_within, joined, stored_form, to_db_path, within};
use crate::relocator::{escape_like, escaped};
use crate::rows::{
    AlbumRow, ExistingTrackRef, OrganizeCollectionMembership, OrganizeTrackRow, TrackRow,
};
use crate::sorting::stably_ordered;
use crate::text::{
    chars_of, decimal, is_digit, is_space, join_texts, joined_texts, number_text, opt_view,
    parse_unsigned, parsed, replace_text, replaced, same, text_of, trim, trimmed, views,
    whitespace,
};

verus! {

// ---------------------------------------------------------------------------
// Album order

/// What the album list is ordered by.
#[derive(Debug, Clone, Copy, PartialEq, Eq, Structural)]
pub enum AlbumSort {
    Artist,
    Album,
    Year,
    TrackCount,
}

impl AlbumSort {
    /// The order that follows this one when the orders are gone through.
    pub open spec fn following(self) -> AlbumSort {
        match self {
            AlbumSort::Artist => AlbumSort::Album,
            AlbumSort::Album => AlbumSort::Year,
            AlbumSort::Year => AlbumSort::TrackCount,
            AlbumSort::TrackCount => AlbumSort::Artist,
        }
    }

    /// The order that follows this one.
    pub fn next(self) -> (r: Self)
        ensures
            r == self.following(),
    {
        match self {
            AlbumSort::Artist => AlbumSort::Album,
            AlbumSort::Album => AlbumSort::Year,
            AlbumSort::Year => AlbumSort::TrackCount,
            AlbumSort::TrackCount => AlbumSort::Artist,
        }
    }

    /// The column that orders the list.
    pub fn order_clause(self) -> (r: &'static str)
        ensures
            r@ == (match self {
                AlbumSort::Artist => "a.album_artist COLLATE NOCASE"@,
                AlbumSort::Album => "a.title COLLATE NOCASE"@,
                AlbumSort::Year => "a.year"@,
                AlbumSort::TrackCount => "track_count"@,
            }),
    {
        match self {
            AlbumSort::Artist => "a.album_artist COLLATE NOCASE",
            AlbumSort::Album => "a.title COLLATE NOCASE",
            AlbumSort::Year => "a.year",
            AlbumSort::TrackCount => "track_count",
        }
    }
}

/// Going through the orders comes to each of them and then back.
pub proof fn law_orders_are_gone_through(s: AlbumSort, t: AlbumSort)
    ensures
        s.following().following().following().following() == s,
        t == s || t == s.following() || t == s.following().following() || t
            == s.following().following().following(),
{
}

// ---------------------------------------------------------------------------
// Search terms

/// The words of a text: its longest parts without whitespace.
pub open spec fn words(s: Seq<char>) -> Seq<Seq<char>>
    decreases s.len(),
{
    if s.len() == 0 {
        Seq::empty()
    } else {
        let prev = words(s.drop_last());
        if is_space(s.last()) {
            prev
        } else if s.len() == 1 || is_space(s[s.len() - 2]) {
            prev.push(seq![s.last()])
        } else {
            prev.drop_last().push(prev.last().push(s.last()))
        }
    }
}

/// The words of a text.
pub fn split_words(s: &str) -> (r: Vec<String>)
    ensures
        views(r@) == words(s@),
{
    let v = chars_of(s);
    let n: usize = v.len();
    let mut out: Vec<String> = Vec::new();
    let mut part = String::new();
    let mut open = false;
    let mut i: usize = 0;
    assert(views(out@) =~= words(s@.take(0)));
    while i < n
        invariant
            i <= n,
            n == v@.len(),
            v@ == s@,
            open == (i > 0 && !is_space(s@[i - 1])),
            !open ==> words(s@.take(i as int)) == views(out@),
            open ==> words(s@.take(i as int)) == views(out@).push(part@),
        decreases n - i,
    {
        let ghost prev = words(s@.take(i as int));
        let ghost before = out@;
        let ghost old_part = part@;
        let c = v[i];
        proof {
            assert(s@.take(i + 1).drop_last() =~= s@.take(i as int));
            assert(s@.take(i + 1).last() == c);
            assert(i > 0 ==> s@.take(i + 1)[i - 1] == s@[i - 1]);
        }
        if whitespace(c) {
            if open {
                out.push(part);
                part = String::new();
                assert(views(out@) =~= views(before).push(old_part));
            }
            open = false;
        } else if open {
            part.push(c);
            proof {
                assert(prev.drop_last() =~= views(before));
                assert(prev.last() == old_part);
            }
        } else {
            part = String::new();
            part.push(c);
            assert(part@ =~= seq![c]);
            open = true;
        }
        i += 1;
    }
    assert(s@.take(n as int) =~= s@);
    if open {
        let ghost before = out@;
        let ghost last = part@;
        out.push(part);
        assert(views(out@) =~= views(before).push(last));
    }
    out
}

/// A pattern for texts that hold `w`.
pub open spec fn holding(w: Seq<char>) -> Seq<char> {
    "%"@ + escaped(w) + "%"@
}

/// A pattern for texts that hold a text, whatever it is made of.
pub fn like_pattern(w: &str) -> (r: String)
    ensures
        r@ == holding(w@),
{
    let mut p = "%".to_owned();
    p.append(escape_like(w).as_str());
    p.append("%");
    p
}

/// The patterns of an album search: one for each word.
pub fn album_terms(query: &str) -> (r: Vec<String>)
    ensures
        views(r@) == words(query@).map_values(|w: Seq<char>| holding(w)),
{
    let ws = split_words(query);
    let ghost all = words(query@).map_values(|w: Seq<char>| holding(w));
    let mut out: Vec<String> = Vec::new();
    let n: usize = ws.len();
    let mut i: usize = 0;
    assert(views(ws@).len() == n);
    while i < n
        invariant
            i <= n,
            n == ws@.len(),
            all == views(ws@).map_values(|w: Seq<char>| holding(w)),
            views(out@) == all.take(i as int),
        decreases n - i,
    {
        let ghost before = out@;
        let p = like_pattern(ws[i].as_str());
        out.push(p);
        i += 1;
        assert(views(ws@)[i - 1] == ws@[i - 1]@);
        assert(views(out@) =~= views(before).push(p@));
        assert(all.take(i as int) =~= all.take(i - 1).push(all[i - 1]));
    }
    assert(all.take(n as int) =~= all);
    out
}

/// The condition that one word puts on an album.
pub open spec fn album_condition(k: nat) -> Seq<char> {
    "(a.title LIKE ?"@ + decimal(k) + " ESCAPE '\\' OR a.album_artist LIKE ?"@ + decimal(k)
        + " ESCAPE '\\')"@
}

/// The conditions that the first `n` words put on an album, all of which
/// must hold.
pub open spec fn album_conditions(n: nat) -> Seq<char>
    decreases n,
{
    if n == 0 {
        Seq::empty()
    } else if n == 1 {
        album_condition(1)
    } else {
        album_conditions((n - 1) as nat) + " AND "@ + album_condition(n)
    }
}

/// The conditions of an album search of `n` words.
pub fn album_where(n: usize) -> (r: String)
    ensures
        r@ == album_conditions(n as nat),
{
    let mut out = String::new();
    let mut k: usize = 0;
    while k < n
        invariant
            k <= n,
            out@ == album_conditions(k as nat),
        decreases n - k,
    {
        let ghost before = out@;
        k += 1;
        if k > 1 {
            out.append(" AND ");
        }
        let num = number_text(k as u64);
        let ghost mid = out@;
        out.append("(a.title LIKE ?");
        out.append(num.as_str());
        out.append(" ESCAPE '\\' OR a.album_artist LIKE ?");
        out.append(num.as_str());
        out.append(" ESCAPE '\\')");
        proof {
            assert(out@ =~= mid + album_condition(k as nat));
            if k == 1 {
                assert(out@ =~= album_condition(1));
            }
        }
    }
    out
}

/// A word of a full-text search: quotation marks are dropped, and what is
/// left is matched as the beginning of a word.
pub open spec fn fts_word(w: Seq<char>) -> Option<Seq<char>> {
    let term = replaced(w, "\""@, ""@);
    if term.len() > 0 { Some("\""@ + term + "\"*"@) } else { None }
}

/// The words of a full-text search.
pub open spec fn fts_words(ws: Seq<Seq<char>>) -> Seq<Seq<char>>
    decreases ws.len(),
{
    if ws.len() == 0 {
        Seq::empty()
    } else {
        match fts_word(ws.last()) {
            Some(w) => fts_words(ws.drop_last()).push(w),
            None => fts_words(ws.drop_last()),
        }
    }
}

/// The full-text query for a search, or nothing where no word is left.
pub fn fts_query(query: &str) -> (r: Option<String>)
    ensures
        opt_view(r) == ({
            let ws = fts_words(words(query@));
            if ws.len() > 0 { Some(joined_texts(ws, " "@)) } else { None }
        }),
{
    let ws = split_words(query);
    let ghost vs = views(ws@);
    let mut out: Vec<String> = Vec::new();
    let n: usize = ws.len();
    let mut i: usize = 0;
    proof {
        reveal_strlit("\"");
    }
    assert(views(out@) =~= fts_words(vs.take(0)));
    while i < n
        invariant
            i <= n,
            n == ws@.len(),
            vs == views(ws@),
            "\""@.len() > 0,
            views(out@) == fts_words(vs.take(i as int)),
        decreases n - i,
    {
        let ghost before = out@;
        assert(vs.take(i + 1).drop_last() =~= vs.take(i as int));
        assert(vs.take(i + 1).last() == ws@[i as int]@);
        let term = replace_text(ws[i].as_str(), "\"", "");
        let cs = chars_of(term.as_str());
        if cs.len() > 0 {
            let mut w = "\"".to_owned();
            w.append(term.as_str());
            w.append("\"*");
            out.push(w);
            assert(views(out@) =~= views(before).push(w@));
        }
        i += 1;
    }
    assert(vs.take(n as int) =~= vs);
    assert(views(out@).len() == out@.len());
    if out.len() == 0 {
        None
    } else {
        Some(join_texts(&out, " "))
    }
}

/// How tracks are searched for.
#[derive(Debug)]
pub enum TrackSearch {
    /// By a full-text query.
    FullText(String),
    /// By a pattern in title, artist and album title.
    Pattern(String),
    /// Nothing can be found.
    Nothing,
}

/// How tracks are searched for: by the full-text index where it has rows, and
/// by a pattern where it has none or cannot be read.
pub fn track_search(query: &str, indexed: Option<i64>) -> (r: TrackSearch)
    ensures
        ({
            let ws = fts_words(words(query@));
            if indexed is Some && indexed->0 > 0 {
                if ws.len() > 0 {
                    r is FullText && r->FullText_0@ == joined_texts(ws, " "@)
                } else {
                    r is Nothing
                }
            } else {
                r is Pattern && r->Pattern_0@ == holding(query@)
            }
        }),
{
    let full = match indexed {
        Some(n) => n > 0,
        None => false,
    };
    if full {
        match fts_query(query) {
            Some(q) => TrackSearch::FullText(q),
            None => TrackSearch::Nothing,
        }
    } else {
        TrackSearch::Pattern(like_pattern(query))
    }
}

/// The pattern of a search for collections, in which the pattern characters
/// of the query keep their meaning.
pub fn collection_pattern(query: &str) -> (r: String)
    ensures
        r@ == "%"@ + query@ + "%"@,
{
    let mut p = "%".to_owned();
    p.append(query);
    p.append("%");
    p
}

/// Places for `n` values in a list.
pub fn placeholders(n: usize) -> (r: String)
    ensures
        r@ == joined_texts(Seq::new(n as nat, |i: int| "?"@), ","@),
{
    let mut parts: Vec<String> = Vec::new();
    let mut i: usize = 0;
    while i < n
        invariant
            i <= n,
            parts@.len() == i,
            forall|k: int| 0 <= k < i ==> (#[trigger] parts@[k])@ == "?"@,
        decreases n - i,
    {
        parts.push("?".to_owned());
        i += 1;
    }
    assert(views(parts@) =~= Seq::new(n as nat, |i: int| "?"@));
    join_texts(&parts, ",")
}

// ---------------------------------------------------------------------------
// Filters

/// The condition that a filter puts on tracks, and the value that it is
/// compared with. A path is compared after the rows are resolved, for only
/// then its components are known.
#[derive(Debug)]
pub struct FilterClause {
    pub condition: &'static str,
    pub value: FilterValue,
}

/// The value that a condition is compared with.
#[derive(Debug)]
pub enum FilterValue {
    Nothing,
    Text(String),
    Number(i64),
}

/// The condition of a filter.
pub open spec fn condition_of(f: OrganizeFilter) -> Seq<char> {
    match f {
        OrganizeFilter::All => "1=1"@,
        OrganizeFilter::Artist(_) => "(t.artist = ?1 OR a.album_artist = ?1)"@,
        OrganizeFilter::Album(_) => "a.title = ?1"@,
        OrganizeFilter::AlbumId(_) => "t.album_id = ?1"@,
        OrganizeFilter::Loose => "t.album_id IS NULL"@,
        OrganizeFilter::Path(_) => "1=1"@,
        OrganizeFilter::Collection(_) => "EXISTS (SELECT 1 FROM collection_tracks ct2 JOIN collections c2 ON c2.id = ct2.collection_id WHERE ct2.track_id = t.id AND c2.name = ?1)"@,
    }
}

/// Whether a value is what a filter compares with.
pub open spec fn is_value_of(v: FilterValue, f: OrganizeFilter) -> bool {
    match f {
        OrganizeFilter::Artist(a) => v is Text && v->Text_0@ == a@,
        OrganizeFilter::Album(a) => v is Text && v->Text_0@ == a@,
        OrganizeFilter::AlbumId(id) => v == FilterValue::Number(id),
        OrganizeFilter::Collection(c) => v is Text && v->Text_0@ == c@,
        _ => v is Nothing,
    }
}

/// The condition that a filter puts on tracks.
pub fn filter_clause(filter: &OrganizeFilter) -> (r: FilterClause)
    ensures
        r.condition@ == condition_of(*filter),
        is_value_of(r.value, *filter),
{
    match filter {
        OrganizeFilter::All => FilterClause { condition: "1=1", value: FilterValue::Nothing },
        OrganizeFilter::Artist(a) => FilterClause {
            condition: "(t.artist = ?1 OR a.album_artist = ?1)",
            value: FilterValue::Text(a.clone()),
        },
        OrganizeFilter::Album(a) => FilterClause {
            condition: "a.title = ?1",
            value: FilterValue::Text(a.clone()),
        },
        OrganizeFilter::AlbumId(id) => FilterClause {
            condition: "t.album_id = ?1",
            value: FilterValue::Number(*id),
        },
        OrganizeFilter::Loose => FilterClause {
            condition: "t.album_id IS NULL",
            value: FilterValue::Nothing,
        },
        OrganizeFilter::Path(_) => FilterClause { condition: "1=1", value: FilterValue::Nothing },
        OrganizeFilter::Collection(c) => FilterClause {
            condition: "EXISTS (SELECT 1 FROM collection_tracks ct2 JOIN collections c2 ON c2.id = ct2.collection_id WHERE ct2.track_id = t.id AND c2.name = ?1)",
            value: FilterValue::Text(c.clone()),
        },
    }
}

/// Whether a path is another or lies below it, component by component.
pub fn path_is_same_or_child(path: &str, prefix: &str) -> (r: bool)
    ensures
        r == within(path@, prefix@),
{
    is_within(path, prefix)
}

/// Whether a filter keeps a track, given where its file is.
pub open spec fn keeps_path(f: OrganizeFilter, path: Seq<char>) -> bool {
    match f {
        OrganizeFilter::Path(prefix) => within(path, prefix@),
        _ => true,
    }
}

/// The tracks that a filter keeps, in order.
pub open spec fn kept_tracks(f: OrganizeFilter, ts: Seq<OrganizeTrackRow>) -> Seq<OrganizeTrackRow>
    decreases ts.len(),
{
    if ts.len() == 0 {
        Seq::empty()
    } else if keeps_path(f, ts.last().file_path@) {
        kept_tracks(f, ts.drop_last()).push(ts.last())
    } else {
        kept_tracks(f, ts.drop_last())
    }
}

/// Drops the tracks that a filter by path does not keep.
pub fn retain_by_path(filter: &OrganizeFilter, tracks: Vec<OrganizeTrackRow>) -> (r: Vec<
    OrganizeTrackRow,
>)
    ensures
        r@ == kept_tracks(*filter, tracks@),
{
    let ghost all = tracks@;
    let mut rest = tracks;
    let mut out: Vec<OrganizeTrackRow> = Vec::new();
    let ghost mut n: int = 0;
    assert(all.skip(0) =~= all);
    assert(all.take(0) =~= Seq::<OrganizeTrackRow>::empty());
    while rest.len() > 0
        invariant
            0 <= n <= all.len(),
            rest@ == all.skip(n),
            out@ == kept_tracks(*filter, all.take(n)),
        decreases rest@.len(),
    {
        let t = rest.remove(0);
        proof {
            assert(all.take(n + 1).drop_last() =~= all.take(n));
            assert(all.take(n + 1).last() == t);
            assert(rest@ =~= all.skip(n + 1));
            n = n + 1;
        }
        let keep = match filter {
            OrganizeFilter::Path(prefix) => path_is_same_or_child(
                t.file_path.as_str(),
                prefix.as_str(),
            ),
            _ => true,
        };
        if keep {
            out.push(t);
        }
    }
    assert(all.take(n) =~= all);
    out
}

// ---------------------------------------------------------------------------
// Edited fields

/// The number that a text begins with, such as 3 in "3/12".
pub open spec fn leading_digits(s: Seq<char>) -> Seq<char>
    decreases s.len(),
{
    if s.len() > 0 && is_digit(s[0]) {
        seq![s[0]] + leading_digits(s.skip(1))
    } else {
        Seq::empty()
    }
}

/// Reads the number at the beginning of a field such as "7" or "3/12".
/// Without a digit there, or with a number too large, there is none.
pub fn parse_leading_u32(value: &str) -> (r: Option<u32>)
    ensures
        match r {
            Some(n) => parsed(leading_digits(trimmed(value@)), u32::MAX as nat) == Some(n as nat),
            None => parsed(leading_digits(trimmed(value@)), u32::MAX as nat) is None,
        },
{
    let t = trim(value);
    let v = chars_of(t.as_str());
    let ghost s = t@;
    let mut i: usize = 0;
    assert(s.skip(0) =~= s);
    assert(s.take(0) + leading_digits(s) =~= leading_digits(s));
    while i < v.len() && '0' <= v[i] && v[i] <= '9'
        invariant
            i <= v@.len(),
            v@ == s,
            leading_digits(s) == s.take(i as int) + leading_digits(s.skip(i as int)),
        decreases v@.len() - i,
    {
        proof {
            assert(s.skip(i as int)[0] == s[i as int]);
            assert(s.skip(i as int).skip(1) =~= s.skip(i + 1));
            assert(s.take(i as int) + (seq![s[i as int]] + leading_digits(s.skip(i + 1))) =~= s.take(
                i + 1,
            ) + leading_digits(s.skip(i + 1)));
        }
        i += 1;
    }
    proof {
        if i < s.len() {
            assert(s.skip(i as int)[0] == s[i as int]);
        }
        assert(leading_digits(s.skip(i as int)) =~= Seq::<char>::empty());
    }
    let digits = text_of(&v, 0, i);
    assert(digits@ =~= leading_digits(s));
    match parse_unsigned(digits.as_str(), u32::MAX as u64) {
        Some(n) => Some(n as u32),
        None => None,
    }
}

/// A change to one column of a track.
#[derive(Debug)]
pub enum FieldUpdate {
    Text { column: &'static str, value: String },
    /// A number, or nothing where the text did not begin with one.
    Number { column: &'static str, value: Option<u32> },
}

/// Whether a field is changed, and as what. Other fields are left alone.
pub open spec fn is_update(field: Seq<char>, value: Seq<char>, u: Option<FieldUpdate>) -> bool {
    if field == "title"@ || field == "artist"@ {
        u is Some && u->0 is Text && u->0->Text_column@ == field && u->0->Text_value@ == value
    } else if field == "track_number"@ || field == "disc_number"@ {
        let n = parsed(leading_digits(trimmed(value)), u32::MAX as nat);
        u is Some && u->0 is Number && u->0->Number_column@ == field && match u->0->Number_value {
            Some(v) => n == Some(v as nat),
            None => n is None,
        }
    } else {
        u is None
    }
}

/// The change that an edited field makes. Only four columns can be edited;
/// the numbers among them are stored as numbers.
pub fn field_update(field: &str, value: &str) -> (r: Option<FieldUpdate>)
    ensures
        is_update(field@, value@, r),
{
    proof {
        reveal_strlit("title");
        reveal_strlit("artist");
        reveal_strlit("track_number");
        reveal_strlit("disc_number");
    }
    if same(field, "title") {
        Some(FieldUpdate::Text { column: "title", value: value.to_owned() })
    } else if same(field, "artist") {
        Some(FieldUpdate::Text { column: "artist", value: value.to_owned() })
    } else if same(field, "track_number") {
        Some(FieldUpdate::Number { column: "track_number", value: parse_leading_u32(value) })
    } else if same(field, "disc_number") {
        Some(FieldUpdate::Number { column: "disc_number", value: parse_leading_u32(value) })
    } else {
        None
    }
}

// ---------------------------------------------------------------------------
// Members of a collection

/// The position after those that a collection's members have, stored or not.
pub open spec fn next_place(max_position: Option<u32>, member_count: u32) -> int {
    let stored = match max_position {
        Some(p) => p as int,
        None => 0,
    };
    (if stored < member_count { member_count as int } else { stored }) + 1
}

/// Whether a track has been given a place.
pub open spec fn is_placed(places: Seq<(i64, u32)>, id: i64) -> bool {
    exists|i: int| 0 <= i < places.len() && (#[trigger] places[i]).0 == id
}

/// The places of tracks that are appended from `next` on, in order. A track
/// that is a member already, or that came before, takes none.
pub open spec fn appended(members: Seq<i64>, ids: Seq<i64>, next: int) -> Seq<(i64, u32)>
    decreases ids.len(),
{
    if ids.len() == 0 {
        Seq::empty()
    } else {
        let prev = appended(members, ids.drop_last(), next);
        let id = ids.last();
        if members.contains(id) || is_placed(prev, id) {
            prev
        } else {
            prev.push((id, (next + prev.len()) as u32))
        }
    }
}

fn has_member(members: &Vec<i64>, id: i64) -> (r: bool)
    ensures
        r == members@.contains(id),
{
    let mut i: usize = 0;
    while i < members.len()
        invariant
            i <= members@.len(),
            forall|k: int| 0 <= k < i ==> members@[k] != id,
        decreases members@.len() - i,
    {
        if members[i] == id {
            return true;
        }
        i += 1;
    }
    false
}

fn has_place(places: &Vec<(i64, u32)>, id: i64) -> (r: bool)
    ensures
        r == is_placed(places@, id),
{
    let mut i: usize = 0;
    while i < places.len()
        invariant
            i <= places@.len(),
            forall|k: int| 0 <= k < i ==> (#[trigger] places@[k]).0 != id,
        decreases places@.len() - i,
    {
        if places[i].0 == id {
            return true;
        }
        i += 1;
    }
    false
}

proof fn lemma_appended_grows(members: Seq<i64>, ids: Seq<i64>, next: int, k: int)
    requires
        0 <= k <= ids.len(),
    ensures
        appended(members, ids.take(k), next).len() <= appended(members, ids, next).len(),
    decreases ids.len() - k,
{
    if k < ids.len() {
        lemma_appended_grows(members, ids, next, k + 1);
        assert(ids.take(k + 1).drop_last() =~= ids.take(k));
    } else {
        assert(ids.take(k) =~= ids);
    }
}

/// The places that tracks get when they are added to a collection in order:
/// after all that its members have. Tracks that are members already keep
/// theirs and are not listed. There is nothing where the positions run out.
pub fn append_members(
    members: &Vec<i64>,
    max_position: Option<u32>,
    member_count: u32,
    track_ids: &Vec<i64>,
) -> (r: Option<Vec<(i64, u32)>>)
    ensures
        ({
            let next = next_place(max_position, member_count);
            let places = appended(members@, track_ids@, next);
            match r {
                Some(v) => v@ == places && next + places.len() <= u32::MAX,
                None => next + places.len() > u32::MAX,
            }
        }),
{
    let stored: u32 = match max_position {
        Some(p) => p,
        None => 0,
    };
    let next: u64 = if stored < member_count {
        member_count as u64 + 1
    } else {
        stored as u64 + 1
    };
    let ghost start = next as int;
    let mut out: Vec<(i64, u32)> = Vec::new();
    let mut at: u64 = next;
    let n: usize = track_ids.len();
    if next > u32::MAX as u64 {
        return None;
    }
    let mut i: usize = 0;
    assert(track_ids@.take(0) =~= Seq::<i64>::empty());
    while i < n
        invariant
            i <= n,
            n == track_ids@.len(),
            start == next_place(max_position, member_count),
            at == start + out@.len(),
            at <= u32::MAX,
            out@ == appended(members@, track_ids@.take(i as int), start),
        decreases n - i,
    {
        let id = track_ids[i];
        assert(track_ids@.take(i + 1).drop_last() =~= track_ids@.take(i as int));
        assert(track_ids@.take(i + 1).last() == id);
        if !has_member(members, id) && !has_place(&out, id) {
            if at == u32::MAX as u64 {
                proof {
                    lemma_appended_grows(members@, track_ids@, start, i + 1);
                }
                return None;
            }
            out.push((id, at as u32));
            at += 1;
        }
        i += 1;
    }
    assert(track_ids@.take(n as int) =~= track_ids@);
    Some(out)
}

/// Appended tracks come after every member, in the order in which they were
/// given, each once, and no member is given a second place.
pub proof fn law_members_are_appended(
    members: Seq<i64>,
    ids: Seq<i64>,
    max_position: Option<u32>,
    member_count: u32,
)
    requires
        next_place(max_position, member_count) + appended(
            members,
            ids,
            next_place(max_position, member_count),
        ).len() <= u32::MAX,
    ensures
        ({
            let next = next_place(max_position, member_count);
            let places = appended(members, ids, next);
            &&& forall|i: int|
                0 <= i < places.len() ==> {
                    &&& (#[trigger] places[i]).1 == next + i
                    &&& max_position is Some ==> places[i].1 > max_position->0
                    &&& !members.contains(places[i].0)
                    &&& ids.contains(places[i].0)
                }
            &&& forall|i: int, j: int|
                0 <= i < j < places.len() ==> (#[trigger] places[i]).0 != (#[trigger] places[j]).0
        }),
    decreases ids.len(),
{
    if ids.len() > 0 {
        let next = next_place(max_position, member_count);
        let prev = appended(members, ids.drop_last(), next);
        let now = appended(members, ids, next);
        law_members_are_appended(members, ids.drop_last(), max_position, member_count);
        assert forall|i: int| 0 <= i < now.len() implies {
            &&& (#[trigger] now[i]).1 == next + i
            &&& max_position is Some ==> now[i].1 > max_position->0
            &&& !members.contains(now[i].0)
            &&& ids.contains(now[i].0)
        } by {
            if i < prev.len() {
                assert(now[i] == prev[i]);
                let k = choose|k: int|
                    0 <= k < ids.drop_last().len() && ids.drop_last()[k] == prev[i].0;
                assert(ids[k] == prev[i].0);
            } else {
                assert(ids[ids.len() - 1] == ids.last());
            }
        }
        assert forall|i: int, j: int| 0 <= i < j < now.len() implies (#[trigger] now[i]).0 != (
        #[trigger] now[j]).0 by {
            assert(now[i] == prev[i]);
            if j < prev.len() {
                assert(now[j] == prev[j]);
            } else {
                assert(!is_placed(prev, now[j].0));
            }
        }
    }
}

/// A member of a collection as it is loaded, in the order of its adding.
#[derive(Debug)]
pub struct CollectionTrackSortRow {
    pub track: TrackRow,
    pub explicit_position: Option<u32>,
    pub album_id: Option<i64>,
}

/// A member as the order of its collection sees it.
pub open spec fn order_item(rows: Seq<CollectionTrackSortRow>, i: int) -> CollectionOrderItem {
    CollectionOrderItem {
        index: i as usize,
        track_id: rows[i].track.id,
        explicit_position: rows[i].explicit_position,
        disc_number: rows[i].track.disc_number,
        track_number: rows[i].track.track_number,
        album_id: rows[i].album_id,
        album_key: None,
        added_order: i as usize,
        title: rows[i].track.title,
    }
}

/// The members as the order of their collection sees them.
pub open spec fn order_items(rows: Seq<CollectionTrackSortRow>) -> Seq<CollectionOrderItem> {
    Seq::new(rows.len(), |i: int| order_item(rows, i))
}

fn build_items(rows: &Vec<CollectionTrackSortRow>) -> (r: Vec<CollectionOrderItem>)
    ensures
        r@ == order_items(rows@),
{
    let mut out: Vec<CollectionOrderItem> = Vec::new();
    let n: usize = rows.len();
    let mut i: usize = 0;
    while i < n
        invariant
            i <= n,
            n == rows@.len(),
            out@ == order_items(rows@).take(i as int),
        decreases n - i,
    {
        let row = &rows[i];
        out.push(
            CollectionOrderItem {
                index: i,
                track_id: row.track.id,
                explicit_position: row.explicit_position,
                disc_number: row.track.disc_number,
                track_number: row.track.track_number,
                album_id: row.album_id,
                album_key: None,
                added_order: i,
                title: row.track.title.clone(),
            },
        );
        i += 1;
        assert(order_items(rows@).take(i as int) =~= order_items(rows@).take(i - 1).push(
            order_items(rows@)[i - 1],
        ));
    }
    assert(order_items(rows@).take(n as int) =~= order_items(rows@));
    out
}

/// Where a page begins.
pub open spec fn page_start(offset: int, len: int) -> int {
    if offset < len { offset } else { len }
}

/// Where a page ends.
pub open spec fn page_end(offset: int, limit: int, len: int) -> int {
    if page_start(offset, len) + limit < len { page_start(offset, len) + limit } else { len }
}

/// The tracks of one page, given the order of the rows.
pub open spec fn page(
    rows: Seq<CollectionTrackSortRow>,
    order: Seq<usize>,
    offset: int,
    limit: int,
) -> Seq<TrackRow> {
    let start = page_start(offset, order.len() as int);
    let end = page_end(offset, limit, order.len() as int);
    Seq::new((end - start) as nat, |k: int| rows[order[start + k] as int].track)
}

/// One page of a collection's tracks, in the order in which it plays.
pub fn collection_page(rows: &Vec<CollectionTrackSortRow>, offset: usize, limit: usize) -> (r: Vec<
    TrackRow,
>)
    ensures
        exists|o: Seq<usize>| #[trigger]
            stably_ordered(o, display_le(order_items(rows@)), rows@.len() as int) && r@ == page(
                rows@,
                o,
                offset as int,
                limit as int,
            ),
{
    let items = build_items(rows);
    let ordered = ordered_indices(items.as_slice());
    let ghost le = display_le(order_items(rows@));
    let ghost o = choose|o: Seq<usize>|
        #![trigger stably_ordered(o, display_le(items@), items@.len() as int)]
        stably_ordered(o, display_le(items@), items@.len() as int) && ordered@ == indices_in(
            items@,
            o,
        );
    proof {
        assert(ordered@ =~= o) by {
            assert forall|k: int| 0 <= k < o.len() implies #[trigger] ordered@[k] == o[k] by {
                assert(o[k] < items@.len());
                assert(items@[o[k] as int] == order_item(rows@, o[k] as int));
            }
        }
    }
    let n: usize = ordered.len();
    let start: usize = if offset < n {
        offset
    } else {
        n
    };
    let end: usize = if limit < n - start {
        start + limit
    } else {
        n
    };
    let ghost whole = page(rows@, o, offset as int, limit as int);
    let mut out: Vec<TrackRow> = Vec::new();
    let mut i: usize = start;
    while i < end
        invariant
            start <= i <= end <= n,
            n == ordered@.len(),
            ordered@ == o,
            stably_ordered(o, le, rows@.len() as int),
            start == page_start(offset as int, n as int),
            end == page_end(offset as int, limit as int, n as int),
            whole == page(rows@, o, offset as int, limit as int),
            out@ == whole.take(i - start),
        decreases end - i,
    {
        assert(o[i as int] < rows@.len());
        let at: usize = ordered[i];
        out.push(rows[at].track.clone());
        i += 1;
        assert(whole.take(i - start) =~= whole.take(i - 1 - start).push(whole[i - 1 - start]));
    }
    assert(whole.take(end - start) =~= whole);
    out
}

/// The positions of the first `n` members, by track.
pub open spec fn positions_of(rows: Seq<CollectionTrackSortRow>, n: int) -> Map<i64, u32>
    decreases n,
{
    if n <= 0 {
        Map::empty()
    } else {
        positions_of(rows, n - 1).insert(
            rows[n - 1].track.id,
            position(order_items(rows), n - 1) as u32,
        )
    }
}

/// The positions of a collection's members, by track. They are those in the
/// whole collection, whatever part of it is asked for later.
pub fn collection_positions(rows: &Vec<CollectionTrackSortRow>) -> (r: HashMap<i64, u32>)
    ensures
        r@ == positions_of(rows@, rows@.len() as int),
{
    broadcast use vstd::std_specs::hash::group_hash_axioms;

    let items = build_items(rows);
    let effective = effective_positions(items.as_slice());
    let mut out: HashMap<i64, u32> = HashMap::new();
    let n: usize = rows.len();
    let mut i: usize = 0;
    assert(out@ =~= positions_of(rows@, 0));
    while i < n
        invariant
            i <= n,
            n == rows@.len(),
            items@ == order_items(rows@),
            effective@.len() == items@.len(),
            forall|k: int|
                0 <= k < effective@.len() ==> (#[trigger] effective@[k]).0 == items@[k].index
                    && effective@[k].1 == position(items@, k),
            out@ == positions_of(rows@, i as int),
        decreases n - i,
    {
        assert(effective@[i as int].1 == position(items@, i as int));
        out.insert(rows[i].track.id, effective[i].1);
        i += 1;
    }
    out
}

/// A member's position is its position in the whole collection.
pub proof fn law_positions_are_those_of_the_whole_collection(
    rows: Seq<CollectionTrackSortRow>,
    n: int,
    i: int,
)
    requires
        0 <= i < n <= rows.len(),
        forall|a: int, b: int|
            0 <= a < b < rows.len() ==> (#[trigger] rows[a]).track.id != (#[trigger] rows[b]).track.id,
    ensures
        positions_of(rows, n).dom().contains(rows[i].track.id),
        positions_of(rows, n)[rows[i].track.id] == position(order_items(rows), i) as u32,
    decreases n,
{
    if i < n - 1 {
        law_positions_are_those_of_the_whole_collection(rows, n - 1, i);
        assert(rows[i].track.id != rows[n - 1].track.id);
    }
}

/// A track's membership in a collection, as it is loaded.
#[derive(Debug)]
pub struct MembershipRow {
    pub collection_id: i64,
    pub name: String,
    pub path_template: Option<String>,
    pub position: Option<u32>,
    /// The stored path of the collection copy.
    pub collection_file_path: Option<String>,
}

/// The positions of a collection's members.
#[derive(Debug)]
pub struct CollectionPositions {
    pub collection_id: i64,
    pub by_track: HashMap<i64, u32>,
}

/// The positions in a collection, where they are known.
pub open spec fn positions_in(all: Seq<CollectionPositions>, id: i64) -> Option<Map<i64, u32>>
    decreases all.len(),
{
    if all.len() == 0 {
        None
    } else if all[0].collection_id == id {
        Some(all[0].by_track@)
    } else {
        positions_in(all.skip(1), id)
    }
}

/// The position of a track in a collection: the effective one, else the one
/// that is stored, else none.
pub open spec fn member_position(all: Seq<CollectionPositions>, m: MembershipRow, track: i64) -> u32 {
    let stored = match m.position {
        Some(p) => p,
        None => 0,
    };
    match positions_in(all, m.collection_id) {
        Some(by_track) => if by_track.dom().contains(track) { by_track[track] } else { stored },
        None => stored,
    }
}

/// Whether a membership is what a row says.
pub open spec fn is_membership(
    r: OrganizeCollectionMembership,
    m: MembershipRow,
    track: i64,
    all: Seq<CollectionPositions>,
    music_dir: Seq<char>,
) -> bool {
    &&& r.id == m.collection_id
    &&& r.name == m.name
    &&& r.path_template == m.path_template
    &&& r.effective_position == member_position(all, m, track)
    &&& opt_view(r.collection_file_path) == resolved_path(m.collection_file_path, music_dir)
}

/// The path that an optional stored path stands for.
pub open spec fn resolved_path(stored: Option<String>, music_dir: Seq<char>) -> Option<Seq<char>> {
    match stored {
        Some(s) => Some(joined(music_dir, s@)),
        None => None,
    }
}

fn resolve_path(stored: &Option<String>, music_dir: &str) -> (r: Option<String>)
    ensures
        opt_view(r) == resolved_path(*stored, music_dir@),
{
    match stored {
        Some(s) => Some(from_db_path(s.as_str(), music_dir)),
        None => None,
    }
}

fn find_position(all: &Vec<CollectionPositions>, m: &MembershipRow, track: i64) -> (r: u32)
    ensures
        r == member_position(all@, *m, track),
{
    broadcast use vstd::std_specs::hash::group_hash_axioms;

    let stored: u32 = match m.position {
        Some(p) => p,
        None => 0,
    };
    let n: usize = all.len();
    let mut i: usize = 0;
    assert(all@.skip(0) =~= all@);
    while i < n
        invariant
            i <= n,
            n == all@.len(),
            stored == (match m.position {
                Some(p) => p,
                None => 0,
            }),
            positions_in(all@, m.collection_id) == positions_in(
                all@.skip(i as int),
                m.collection_id,
            ),
        decreases n - i,
    {
        assert(all@.skip(i as int)[0] == all@[i as int]);
        assert(all@.skip(i as int).skip(1) =~= all@.skip(i + 1));
        if all[i].collection_id == m.collection_id {
            return match all[i].by_track.get(&track) {
                Some(p) => *p,
                None => stored,
            };
        }
        i += 1;
    }
    stored
}

/// The memberships of a track, in the order of their rows.
pub fn memberships(
    rows: Vec<MembershipRow>,
    track: i64,
    all: &Vec<CollectionPositions>,
    music_dir: &str,
) -> (r: Vec<OrganizeCollectionMembership>)
    ensures
        r@.len() == rows@.len(),
        forall|k: int|
            0 <= k < r@.len() ==> is_membership(
                #[trigger] r@[k],
                rows@[k],
                track,
                all@,
                music_dir@,
            ),
{
    let ghost src = rows@;
    let mut rest = rows;
    let mut out: Vec<OrganizeCollectionMembership> = Vec::new();
    assert(src.skip(0) =~= src);
    while rest.len() > 0
        invariant
            out@.len() <= src.len(),
            rest@ == src.skip(out@.len() as int),
            forall|k: int|
                0 <= k < out@.len() ==> is_membership(
                    #[trigger] out@[k],
                    src[k],
                    track,
                    all@,
                    music_dir@,
                ),
        decreases rest@.len(),
    {
        let ghost at = out@.len() as int;
        let m = rest.remove(0);
        assert(m == src[at]);
        assert(rest@ =~= src.skip(at + 1));
        let effective_position = find_position(all, &m, track);
        let collection_file_path = resolve_path(&m.collection_file_path, music_dir);
        out.push(
            OrganizeCollectionMembership {
                id: m.collection_id,
                name: m.name,
                path_template: m.path_template,
                effective_position,
                collection_file_path,
            },
        );
    }
    out
}

// ---------------------------------------------------------------------------
// Rows

/// The stored form of a cover's path. An empty path clears it.
pub fn stored_cover(
    path: &str,
    music_dir: &str,
    real_path: &Option<String>,
    real_music_dir: &Option<String>,
) -> (r: Option<String>)
    ensures
        opt_view(r) == (if path@.len() == 0 {
            None
        } else {
            Some(stored_form(path@, music_dir@, opt_view(*real_path), opt_view(*real_music_dir)))
        }),
{
    let cs = chars_of(path);
    if cs.len() == 0 {
        None
    } else {
        Some(to_db_path(path, music_dir, real_path, real_music_dir))
    }
}

/// The columns of a track that a track list shows.
#[derive(Debug)]
pub struct RawTrack {
    pub id: i64,
    pub title: String,
    pub artist: Option<String>,
    pub track_number: Option<u32>,
    pub disc_number: Option<u32>,
    pub duration_ms: Option<i64>,
    pub tag_status: Option<String>,
    pub bitrate: Option<u32>,
    pub file_format: Option<String>,
    pub file_path: Option<String>,
}

/// A text, or nothing.
pub open spec fn or_blank(o: Option<String>) -> Seq<char> {
    match o {
        Some(s) => s@,
        None => Seq::empty(),
    }
}

/// The path that a stored path stands for, or nothing.
pub open spec fn path_or_blank(o: Option<String>, music_dir: Seq<char>) -> Seq<char> {
    match o {
        Some(s) => joined(music_dir, s@),
        None => Seq::empty(),
    }
}

/// A disc number, which is one where it is unknown.
pub open spec fn disc_or_one(o: Option<u32>) -> u32 {
    match o {
        Some(n) => n,
        None => 1,
    }
}

/// A duration as it was stored.
pub open spec fn duration_of(o: Option<i64>) -> Option<u64> {
    match o {
        Some(v) => Some(v as u64),
        None => None,
    }
}

fn blank_or(o: Option<String>) -> (r: String)
    ensures
        r@ == or_blank(o),
{
    match o {
        Some(s) => s,
        None => String::new(),
    }
}

fn path_of(o: &Option<String>, music_dir: &str) -> (r: String)
    ensures
        r@ == path_or_blank(*o, music_dir@),
{
    match o {
        Some(s) => from_db_path(s.as_str(), music_dir),
        None => String::new(),
    }
}

fn read_duration(o: Option<i64>) -> (r: Option<u64>)
    ensures
        r == duration_of(o),
{
    match o {
        Some(v) => Some(v as u64),
        None => None,
    }
}

/// A track as a track list shows it.
pub fn track_row(raw: RawTrack, music_dir: &str) -> (r: TrackRow)
    ensures
        r.id == raw.id,
        r.title == raw.title,
        r.artist == raw.artist,
        r.track_number == raw.track_number,
        r.disc_number == disc_or_one(raw.disc_number),
        r.duration_ms == duration_of(raw.duration_ms),
        r.tag_status@ == or_blank(raw.tag_status),
        r.bitrate == raw.bitrate,
        r.file_format@ == or_blank(raw.file_format),
        r.file_path@ == path_or_blank(raw.file_path, music_dir@),
{
    TrackRow {
        id: raw.id,
        title: raw.title,
        artist: raw.artist,
        track_number: raw.track_number,
        disc_number: match raw.disc_number {
            Some(n) => n,
            None => 1,
        },
        duration_ms: read_duration(raw.duration_ms),
        tag_status: blank_or(raw.tag_status),
        bitrate: raw.bitrate,
        file_format: blank_or(raw.file_format),
        file_path: path_of(&raw.file_path, music_dir),
    }
}

/// The columns of a track that may be a duplicate.
#[derive(Debug)]
pub struct RawExisting {
    pub track: RawTrack,
    pub album_id: Option<i64>,
    pub album_title: Option<String>,
    pub file_size: Option<i64>,
    pub mbid: Option<String>,
}

/// A track that may be a duplicate.
pub fn existing_track(raw: RawExisting, music_dir: &str) -> (r: ExistingTrackRef)
    ensures
        r.id == raw.track.id,
        r.album_id == raw.album_id,
        r.title == raw.track.title,
        r.artist == raw.track.artist,
        r.album_title == raw.album_title,
        r.track_number == raw.track.track_number,
        r.disc_number == disc_or_one(raw.track.disc_number),
        r.duration_ms == duration_of(raw.track.duration_ms),
        r.bitrate == raw.track.bitrate,
        r.file_format@ == or_blank(raw.track.file_format),
        r.file_path@ == path_or_blank(raw.track.file_path, music_dir@),
        r.file_size == raw.file_size,
        r.mbid == raw.mbid,
        r.tag_status@ == or_blank(raw.track.tag_status),
{
    let t = track_row(raw.track, music_dir);
    ExistingTrackRef {
        id: t.id,
        album_id: raw.album_id,
        title: t.title,
        artist: t.artist,
        album_title: raw.album_title,
        track_number: t.track_number,
        disc_number: t.disc_number,
        duration_ms: t.duration_ms,
        bitrate: t.bitrate,
        file_format: t.file_format,
        file_path: t.file_path,
        file_size: raw.file_size,
        mbid: raw.mbid,
        tag_status: t.tag_status,
    }
}

/// An album as the album list shows it: its formats may be unknown, and its
/// cover is stored below the music directory.
pub fn album_row(row: AlbumRow, formats: Option<String>, music_dir: &str) -> (r: AlbumRow)
    ensures
        r.id == row.id,
        r.title == row.title,
        r.album_artist == row.album_artist,
        r.year == row.year,
        r.track_count == row.track_count,
        r.formats@ == or_blank(formats),
        r.total_duration_ms == row.total_duration_ms,
        r.mbid == row.mbid,
        r.label == row.label,
        r.genre == row.genre,
        opt_view(r.cover_art_path) == resolved_path(row.cover_art_path, music_dir@),
{
    let mut r = row;
    r.formats = blank_or(formats);
    r.cover_art_path = resolve_path(&r.cover_art_path, music_dir);
    r
}


// ---------------------------------------------------------------------------
// Laws of terms and pages

proof fn lemma_word_open(s: Seq<char>)
    requires
        s.len() > 0,
        !is_space(s.last()),
    ensures
        words(s).len() > 0,
{
}

/// Words are what stands between whitespace, in order.
pub proof fn law_words_stand_between_spaces(a: Seq<char>, space: char, b: Seq<char>)
    requires
        is_space(space),
    ensures
        words(a + seq![space] + b) == words(a) + words(b),
    decreases b.len(),
{
    let s = a + seq![space] + b;
    if b.len() == 0 {
        assert(s.drop_last() =~= a);
        assert(s.last() == space);
        assert(words(a) + words(b) =~= words(a));
    } else {
        let d = b.drop_last();
        law_words_stand_between_spaces(a, space, d);
        assert(s.drop_last() =~= a + seq![space] + d);
        assert(s.last() == b.last());
        let wa = words(a);
        let wd = words(d);
        if !is_space(b.last()) {
            if b.len() == 1 {
                assert(s[s.len() - 2] == space);
                assert((wa + wd).push(seq![b.last()]) =~= wa + wd.push(seq![b.last()]));
            } else {
                assert(s[s.len() - 2] == b[b.len() - 2]);
                if is_space(b[b.len() - 2]) {
                    assert((wa + wd).push(seq![b.last()]) =~= wa + wd.push(seq![b.last()]));
                } else {
                    assert(d.last() == b[b.len() - 2]);
                    lemma_word_open(d);
                    let w = wd.last().push(b.last());
                    assert((wa + wd).last() == wd.last());
                    assert((wa + wd).drop_last().push(w) =~= wa + wd.drop_last().push(w));
                }
            }
        }
    }
}

/// A text without whitespace is one word.
pub proof fn law_text_without_spaces_is_one_word(s: Seq<char>)
    requires
        s.len() > 0,
        forall|i: int| 0 <= i < s.len() ==> !is_space(#[trigger] s[i]),
    ensures
        words(s) == seq![s],
    decreases s.len(),
{
    let d = s.drop_last();
    assert(s[s.len() - 1] == s.last());
    assert(d.push(s.last()) =~= s);
    if s.len() == 1 {
        assert(d =~= Seq::<char>::empty());
        assert(words(d) =~= Seq::<Seq<char>>::empty());
        assert(seq![s.last()] =~= s);
        assert(words(s) =~= seq![s]);
    } else {
        assert(d[d.len() - 1] == s[s.len() - 2]);
        law_text_without_spaces_is_one_word(d);
        assert(words(s) =~= seq![s]);
    }
}

proof fn lemma_fts_words_add(a: Seq<Seq<char>>, b: Seq<Seq<char>>)
    ensures
        fts_words(a + b) == fts_words(a) + fts_words(b),
    decreases b.len(),
{
    if b.len() == 0 {
        assert(a + b =~= a);
        assert(fts_words(a) + fts_words(b) =~= fts_words(a));
    } else {
        let d = b.drop_last();
        lemma_fts_words_add(a, d);
        assert((a + b).drop_last() =~= a + d);
        assert((a + b).last() == b.last());
        if fts_word(b.last()) is Some {
            let w = fts_word(b.last())->0;
            assert((fts_words(a) + fts_words(d)).push(w) =~= fts_words(a) + fts_words(d).push(w));
        }
    }
}

/// A full-text search looks for each word, in order, as the beginning of one:
/// in quotes, with a star behind it.
pub proof fn law_each_word_is_searched_as_a_beginning(
    a: Seq<Seq<char>>,
    b: Seq<Seq<char>>,
    w: Seq<char>,
)
    requires
        w.len() > 0,
        !w.contains('"'),
    ensures
        fts_words(a + b) == fts_words(a) + fts_words(b),
        fts_words(seq![w]) == seq![seq!['"'] + w + seq!['"', '*']],
        fts_words(seq!["\""@]).len() == 0,
{
    lemma_fts_words_add(a, b);
    reveal_strlit("\"");
    reveal_strlit("\"*");
    reveal_strlit("");
    let quote = "\""@;
    let none = Seq::<Seq<char>>::empty();
    assert(""@ =~= Seq::<char>::empty());
    assert forall|i: int| !#[trigger] crate::text::occurs_at(w, quote, i) by {
        if crate::text::occurs_at(w, quote, i) {
            let sub = w.subrange(i, i + quote.len());
            assert(sub[0] == w[i]);
            assert(w.contains(w[i]));
        }
    }
    crate::text::law_nothing_to_replace_changes_nothing(w, quote, ""@);
    assert("\""@ + w + "\"*"@ =~= seq!['"'] + w + seq!['"', '*']);
    assert(seq![w].drop_last() =~= none);
    assert(fts_words(seq![w].drop_last()) =~= none);
    assert(none.push(seq!['"'] + w + seq!['"', '*']) =~= seq![seq!['"'] + w + seq!['"', '*']]);
    let e = Seq::<char>::empty();
    crate::text::law_an_occurrence_is_replaced(e, quote, e, ""@);
    assert(e + quote + e =~= quote);
    assert(e + ""@ + e =~= e);
    assert(seq![quote].drop_last() =~= none);
    assert(seq![quote].last() == quote);
    assert(fts_words(seq![quote].drop_last()) =~= none);
}

proof fn lemma_kept_add(f: OrganizeFilter, a: Seq<OrganizeTrackRow>, b: Seq<OrganizeTrackRow>)
    ensures
        kept_tracks(f, a + b) == kept_tracks(f, a) + kept_tracks(f, b),
    decreases b.len(),
{
    if b.len() == 0 {
        assert(a + b =~= a);
        assert(kept_tracks(f, a) + kept_tracks(f, b) =~= kept_tracks(f, a));
    } else {
        let d = b.drop_last();
        lemma_kept_add(f, a, d);
        assert((a + b).drop_last() =~= a + d);
        assert((a + b).last() == b.last());
        assert((kept_tracks(f, a) + kept_tracks(f, d)).push(b.last()) =~= kept_tracks(f, a)
            + kept_tracks(f, d).push(b.last()));
    }
}

/// Tracks are kept in their order. A path keeps those at or below it, whole
/// names compared; every other filter leaves the choice to the query.
pub proof fn law_paths_keep_what_lies_below(
    f: OrganizeFilter,
    a: Seq<OrganizeTrackRow>,
    b: Seq<OrganizeTrackRow>,
    t: OrganizeTrackRow,
)
    ensures
        kept_tracks(f, a + b) == kept_tracks(f, a) + kept_tracks(f, b),
        !(f is Path) ==> kept_tracks(f, seq![t]) == seq![t],
        f is Path ==> ({
            let base = crate::paths::comps(f->Path_0@);
            let own = crate::paths::comps(t.file_path@);
            if own.len() >= base.len() && own.take(base.len() as int) == base {
                kept_tracks(f, seq![t]) == seq![t]
            } else {
                kept_tracks(f, seq![t]).len() == 0
            }
        }),
{
    lemma_kept_add(f, a, b);
    let one = seq![t];
    let none = Seq::<OrganizeTrackRow>::empty();
    assert(one.drop_last() =~= none);
    assert(one.last() == t);
    assert(kept_tracks(f, one.drop_last()) =~= none);
    assert(none.push(t) =~= one);
}

/// A number is read as far as its digits go.
pub proof fn law_numbers_are_read_to_their_last_digit(digits: Seq<char>, rest: Seq<char>)
    requires
        forall|i: int| 0 <= i < digits.len() ==> '0' <= #[trigger] digits[i] <= '9',
        rest.len() == 0 || !('0' <= rest[0] <= '9'),
    ensures
        leading_digits(digits + rest) == digits,
    decreases digits.len(),
{
    let s = digits + rest;
    if digits.len() == 0 {
        assert(s =~= rest);
        assert(leading_digits(s) =~= digits);
    } else {
        let d = digits.skip(1);
        assert forall|i: int| 0 <= i < d.len() implies '0' <= #[trigger] d[i] <= '9' by {
            assert(d[i] == digits[i + 1]);
        }
        law_numbers_are_read_to_their_last_digit(d, rest);
        assert(s.skip(1) =~= d + rest);
        assert(s[0] == digits[0]);
        assert(seq![digits[0]] + d =~= digits);
    }
}

/// New members come right behind the last of those there are.
pub proof fn law_new_members_come_last(max_position: Option<u32>, member_count: u32)
    ensures
        next_place(max_position, member_count) > member_count,
        max_position is Some ==> next_place(max_position, member_count) > max_position->0,
        max_position is None || max_position->0 <= member_count ==> next_place(
            max_position,
            member_count,
        ) == member_count + 1,
        max_position is Some && max_position->0 >= member_count ==> next_place(
            max_position,
            member_count,
        ) == max_position->0 + 1,
{
}

/// Pages follow each other without gap or overlap, and together they hold
/// every row once, in order.
pub proof fn law_pages_make_up_the_whole(
    rows: Seq<CollectionTrackSortRow>,
    order: Seq<usize>,
    offset: int,
    a: int,
    b: int,
)
    requires
        0 <= offset,
        0 <= a,
        0 <= b,
    ensures
        page(rows, order, offset, a) + page(rows, order, offset + a, b) == page(
            rows,
            order,
            offset,
            a + b,
        ),
        page(rows, order, 0, order.len() as int).len() == order.len(),
        forall|k: int|
            0 <= k < order.len() ==> #[trigger] page(rows, order, 0, order.len() as int)[k]
                == rows[order[k] as int].track,
        page(rows, order, offset, a).len() <= a,
{
    assert(page(rows, order, offset, a) + page(rows, order, offset + a, b) =~= page(
        rows,
        order,
        offset,
        a + b,
    ));
}

/// Each word of an album search is a condition of its own, on title and
/// artist alike, with the parameter of its number; all must hold.
pub proof fn law_every_word_of_an_album_search_counts(n: nat)
    ensures
        album_conditions(1) == "(a.title LIKE ?"@ + decimal(1) + " ESCAPE '\\' OR a.album_artist LIKE ?"@
            + decimal(1) + " ESCAPE '\\')"@,
        n >= 1 ==> album_conditions(n + 1) == album_conditions(n) + " AND "@ + (
        "(a.title LIKE ?"@ + decimal(n + 1) + " ESCAPE '\\' OR a.album_artist LIKE ?"@ + decimal(
            n + 1,
        ) + " ESCAPE '\\')"@),
{
}

} // verus!
