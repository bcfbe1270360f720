//! What the music database answers, and what is made of it.
use vstd::prelude::*;

use crate::error::KyokuError;
use crate::http::{failed_status, is_server_error, is_success, AttemptError};
use crate::json::{
    document, field, first_at, get, get_first, get_list, get_number, get_text, get_text_within,
    list_at, number_at, read_json, text_at, text_within, Json,
};
use crate::matching::{is_pure_latin, pure_latin};
use crate::name_preference::{pick_preferred_name, preferred, AliasKind, MbAlias};
use crate::releases::{reads, same_release, status_reads, MbRelease, MbTrack};
use crate::rows::copy_text;
use crate::settings::NameScriptPreference;
use crate::sorting::{comes_before, stable_order, stably_ordered, total_order};
use crate::text::{
    all_digits, borrow_text, chars_of, digits_value, lemma_text_order_flip,
    lemma_text_order_transitive, opt_view, parse_unsigned, parsed, same, text_of, text_order,
    text_rank, trim, trimmed,
};

verus! {

// ---------------------------------------------------------------------------
// Messages

/// A text without whitespace around it, cut after `max` characters.
pub open spec fn clipped(s: Seq<char>, max: int) -> Seq<char> {
    let t = trimmed(s);
    if t.len() <= max { t } else { t.take(max).push('…') }
}

/// A text short enough for a message.
pub fn truncate_for_log(s: &str, max: usize) -> (r: String)
    ensures
        r@ == clipped(s@, max as int),
{
    let t = trim(s);
    let v = chars_of(t.as_str());
    if v.len() <= max {
        t
    } else {
        let mut out = text_of(&v, 0, max);
        assert(out@ =~= t@.take(max as int));
        out.push('…');
        out
    }
}

/// How an answer that cannot be read is reported.
pub open spec fn parse_message(label: Seq<char>, reason: Seq<char>, body: Seq<char>) -> Seq<char> {
    label + ": "@ + reason + ": body="@ + clipped(body, 200)
}

/// The error for an answer that cannot be read.
pub fn parse_error(label: &str, reason: &str, body: &str) -> (r: KyokuError)
    ensures
        r is External,
        r->External_0@ == parse_message(label@, reason@, body@),
{
    let mut s = label.to_owned();
    s.append(": ");
    s.append(reason);
    s.append(": body=");
    s.append(truncate_for_log(body, 200).as_str());
    KyokuError::External(s)
}

/// What an answer says went wrong: its own message, or the answer itself.
pub open spec fn failure_detail(body: Seq<char>) -> Seq<char> {
    match document(body) {
        Ok(j) => match text_at(j, "error"@) {
            Some(e) => e,
            None => clipped(body, 200),
        },
        Err(_) => clipped(body, 200),
    }
}

/// The failure that a status and the answer with it mean.
pub fn answer_failure(status: u16, status_text: &str, body: &str) -> (r: Option<AttemptError>)
    ensures
        is_success(status) ==> r is None,
        is_server_error(status) ==> r is Some && r->0 is Retryable && r->0->Retryable_0@
            == "HTTP "@ + status_text@ + ": "@ + failure_detail(body@),
        !is_success(status) && !is_server_error(status) ==> r is Some && r->0 is Permanent
            && r->0->Permanent_0@ == "HTTP "@ + status_text@ + ": "@ + failure_detail(body@),
{
    if 200 <= status && status <= 299 {
        return None;
    }
    let own = match read_json(body) {
        Ok(j) => get_text(&j, "error"),
        Err(_) => None,
    };
    let detail = match own {
        Some(e) => e,
        None => truncate_for_log(body, 200),
    };
    let mut msg = "HTTP ".to_owned();
    msg.append(status_text);
    msg.append(": ");
    msg.append(detail.as_str());
    failed_status(status, msg)
}

// ---------------------------------------------------------------------------
// Dates

/// The year of a date: its first four characters, where they are a number.
pub open spec fn date_year(d: Seq<char>) -> Option<int> {
    if d.len() < 4 {
        None
    } else {
        let y = d.take(4);
        if y[0] == '-' {
            if all_digits(y.skip(1)) { Some(-(digits_value(y.skip(1)) as int)) } else { None }
        } else {
            match parsed(y, 9999) {
                Some(n) => Some(n as int),
                None => None,
            }
        }
    }
}

/// An optional year is a given one.
pub open spec fn is_year(r: Option<i32>, y: Option<int>) -> bool {
    match r {
        Some(n) => y == Some(n as int),
        None => y is None,
    }
}

/// The year of a date.
pub fn year_in(d: &str) -> (r: Option<i32>)
    ensures
        is_year(r, date_year(d@)),
{
    let v = chars_of(d);
    if v.len() < 4 {
        return None;
    }
    if v[0] == '-' {
        let digits = text_of(&v, 1, 4);
        assert(digits@ =~= d@.take(4).skip(1));
        proof {
            let s = digits@;
            assert(crate::text::unsigned_body(s) == s || s[0] == '+');
            if all_digits(s) {
                assert(crate::text::is_digit(s[0]));
                lemma_short_number(s);
            }
        }
        if v[1] == '+' {
            assert(!crate::text::is_digit(digits@[0]));
            return None;
        }
        match parse_unsigned(digits.as_str(), 9999) {
            Some(n) => Some(-(n as i32)),
            None => None,
        }
    } else {
        let y = text_of(&v, 0, 4);
        assert(y@ =~= d@.take(4));
        match parse_unsigned(y.as_str(), 9999) {
            Some(n) => Some(n as i32),
            None => None,
        }
    }
}

/// Up to four digits write at most 9999.
proof fn lemma_short_number(s: Seq<char>)
    requires
        all_digits(s),
        s.len() <= 4,
    ensures
        digits_value(s) <= 9999,
{
    reveal_with_fuel(digits_value, 6);
    assert forall|i: int| 0 <= i < s.len() implies crate::text::digit_value(#[trigger] s[i])
        <= 9 by {
        assert(crate::text::is_digit(s[i]));
    }
    let a = s.drop_last();
    if s.len() >= 2 {
        assert(a.last() == s[s.len() - 2]);
        let b = a.drop_last();
        if s.len() >= 3 {
            assert(b.last() == s[s.len() - 3]);
            let c = b.drop_last();
            if s.len() == 4 {
                assert(c.last() == s[0]);
            }
        }
    }
}

/// The earliest of the dates that are known. Dates are compared as texts.
pub open spec fn earliest(dates: Seq<Option<Seq<char>>>) -> Option<Seq<char>>
    decreases dates.len(),
{
    if dates.len() == 0 {
        None
    } else {
        let prev = earliest(dates.drop_last());
        match dates.last() {
            None => prev,
            Some(d) => match prev {
                None => Some(d),
                Some(p) => if text_order(d, p) < 0 { Some(d) } else { Some(p) },
            },
        }
    }
}

/// Optional texts by their characters.
pub open spec fn opt_views(v: Seq<Option<String>>) -> Seq<Option<Seq<char>>> {
    v.map_values(|o: Option<String>| opt_view(o))
}

/// The earliest of the dates that are known.
fn earliest_date(dates: &Vec<Option<String>>) -> (r: Option<String>)
    ensures
        opt_view(r) == earliest(opt_views(dates@)),
{
    let mut best: Option<String> = None;
    let ghost ds = opt_views(dates@);
    let n: usize = dates.len();
    let mut i: usize = 0;
    while i < n
        invariant
            i <= n,
            n == dates@.len(),
            ds == opt_views(dates@),
            opt_view(best) == earliest(ds.take(i as int)),
        decreases n - i,
    {
        assert(ds.take(i + 1).drop_last() =~= ds.take(i as int));
        assert(ds.take(i + 1).last() == opt_view(dates@[i as int]));
        if let Some(d) = &dates[i] {
            let better = match &best {
                Some(p) => text_rank(d.as_str(), p.as_str()) < 0,
                None => true,
            };
            if better {
                best = Some(d.clone());
            }
        }
        i += 1;
    }
    assert(ds.take(n as int) =~= ds);
    best
}

/// The first text, or the second where there is no first.
pub open spec fn or_else(a: Option<Seq<char>>, b: Option<Seq<char>>) -> Option<Seq<char>> {
    if a is Some { a } else { b }
}

fn either(a: Option<String>, b: Option<String>) -> (r: Option<String>)
    ensures
        opt_view(r) == or_else(opt_view(a), opt_view(b)),
{
    match a {
        Some(x) => Some(x),
        None => b,
    }
}

fn or_empty(a: Option<String>) -> (r: String)
    ensures
        r@ == text_or_empty(opt_view(a)),
{
    match a {
        Some(x) => x,
        None => {
            proof {
                reveal_strlit("");
            }
            let s = "".to_owned();
            assert(s@ =~= Seq::<char>::empty());
            s
        },
    }
}

/// A text, or nothing.
pub open spec fn text_or_empty(a: Option<Seq<char>>) -> Seq<char> {
    match a {
        Some(x) => x,
        None => Seq::empty(),
    }
}

/// The year of an optional date.
pub open spec fn year_of_date(d: Option<Seq<char>>) -> Option<int> {
    match d {
        Some(d) => date_year(d),
        None => None,
    }
}

fn year_of(d: &Option<String>) -> (r: Option<i32>)
    ensures
        is_year(r, year_of_date(opt_view(*d))),
{
    match d {
        Some(d) => year_in(d.as_str()),
        None => None,
    }
}

// ---------------------------------------------------------------------------
// Search results

/// One release of a search's answer.
#[derive(Debug)]
pub struct SearchRelease {
    pub id: String,
    pub title: String,
    pub score: Option<u8>,
    pub date: Option<String>,
    pub country: Option<String>,
    pub track_count: Option<u32>,
    pub status: Option<String>,
    pub artist_credit: Option<Vec<ArtistCredit>>,
    /// The names of the labels, in order.
    pub label_info: Option<Vec<Option<String>>>,
    pub release_group: Option<SearchReleaseGroup>,
    /// The dates of the release events.
    pub release_events: Option<Vec<Option<String>>>,
}

/// The release group of a search's release.
#[derive(Debug)]
pub struct SearchReleaseGroup {
    pub id: Option<String>,
    pub first_release_date: Option<String>,
}

/// A credited artist: the name as credited, and the artist's own.
#[derive(Debug)]
pub struct ArtistCredit {
    pub name: Option<String>,
    pub artist_name: Option<String>,
}

/// The credited name, or else the artist's own.
pub open spec fn credited(c: ArtistCredit) -> Option<Seq<char>> {
    or_else(opt_view(c.name), opt_view(c.artist_name))
}

/// The artist of a search's release: the first one credited.
pub open spec fn search_artist(credits: Option<Vec<ArtistCredit>>) -> Seq<char> {
    match credits {
        Some(cs) => if cs@.len() > 0 { text_or_empty(credited(cs@[0])) } else { Seq::empty() },
        None => Seq::empty(),
    }
}

/// The label of a search's release: the first one.
pub open spec fn search_label(labels: Option<Vec<Option<String>>>) -> Option<Seq<char>> {
    match labels {
        Some(ls) => if ls@.len() > 0 { opt_view(ls@[0]) } else { None },
        None => None,
    }
}

/// The earliest of optional dates.
pub open spec fn events_date(events: Option<Vec<Option<String>>>) -> Option<Seq<char>> {
    match events {
        Some(es) => earliest(opt_views(es@)),
        None => None,
    }
}

/// The first release date of an optional group.
pub open spec fn group_date(g: Option<SearchReleaseGroup>) -> Option<Seq<char>> {
    match g {
        Some(g) => opt_view(g.first_release_date),
        None => None,
    }
}

/// The candidate that a search's release makes. The year comes from the
/// release's own date, else from its group's, else from its earliest event.
pub fn parse_search_release(r: SearchRelease) -> (m: MbRelease)
    ensures
        m.id == r.id,
        m.title == r.title,
        m.artist@ == search_artist(r.artist_credit),
        is_year(
            m.year,
            year_of_date(
                or_else(
                    opt_view(r.date),
                    or_else(group_date(r.release_group), events_date(r.release_events)),
                ),
            ),
        ),
        m.country == r.country,
        opt_view(m.label) == search_label(r.label_info),
        m.status == r.status,
        m.track_count == (if r.track_count is Some { r.track_count->0 } else { 0 }),
        m.medium_count == 0,
        m.tracks@.len() == 0,
        m.api_score == (if r.score is Some { r.score->0 } else { 0 }),
        opt_view(m.release_group_id) == (match r.release_group {
            Some(g) => opt_view(g.id),
            None => None,
        }),
        m.group_min_year is None,
{
    let artist = match &r.artist_credit {
        Some(cs) => if cs.len() > 0 {
            or_empty(either(copy_text(&cs[0].name), copy_text(&cs[0].artist_name)))
        } else {
            or_empty(None)
        },
        None => or_empty(None),
    };
    let label = match &r.label_info {
        Some(ls) => if ls.len() > 0 {
            copy_text(&ls[0])
        } else {
            None
        },
        None => None,
    };
    let rg_first = match &r.release_group {
        Some(g) => copy_text(&g.first_release_date),
        None => None,
    };
    let event = match &r.release_events {
        Some(es) => earliest_date(es),
        None => None,
    };
    let year = year_of(&either(r.date, either(rg_first, event)));
    let release_group_id = match r.release_group {
        Some(g) => g.id,
        None => None,
    };
    MbRelease {
        id: r.id,
        title: r.title,
        artist,
        year,
        country: r.country,
        label,
        status: r.status,
        track_count: match r.track_count {
            Some(n) => n,
            None => 0,
        },
        medium_count: 0,
        tracks: Vec::new(),
        api_score: match r.score {
            Some(n) => n,
            None => 0,
        },
        release_group_id,
        group_min_year: None,
    }
}

// ---------------------------------------------------------------------------
// Aliases

/// An alias by its characters.
pub struct AliasView {
    pub name: Seq<char>,
    pub locale: Option<Seq<char>>,
    pub type_: Option<Seq<char>>,
    pub primary: bool,
}

/// An alias by its characters.
pub open spec fn alias_view(a: MbAlias) -> AliasView {
    AliasView {
        name: a.name@,
        locale: opt_view(a.locale),
        type_: opt_view(a.type_),
        primary: a.primary,
    }
}

/// Aliases by their characters.
pub open spec fn alias_views(v: Seq<MbAlias>) -> Seq<AliasView> {
    v.map_values(|a: MbAlias| alias_view(a))
}

/// A text that may be absent or null. Anything else is malformed.
pub open spec fn lenient_text(j: Option<Json>) -> Option<Option<Seq<char>>> {
    match j {
        None => Some(None),
        Some(Json::Null) => Some(None),
        Some(Json::Text(s)) => Some(Some(s@)),
        _ => None,
    }
}

/// A flag that may be absent. Anything else is malformed.
pub open spec fn lenient_flag(j: Option<Json>) -> Option<bool> {
    match j {
        None => Some(false),
        Some(Json::Bool(b)) => Some(b),
        _ => None,
    }
}

/// An element of a list, where there is one.
pub open spec fn item(items: Seq<Json>, i: int) -> Option<Json> {
    if 0 <= i < items.len() { Some(items[i]) } else { None }
}

/// An alias of four parts, where none of them is malformed.
pub open spec fn alias_of_parts(
    name: Option<Json>,
    locale: Option<Json>,
    kind: Option<Json>,
    primary: Option<Json>,
) -> Option<AliasView> {
    match name {
        Some(Json::Text(n)) => if lenient_text(locale) is Some && lenient_text(kind) is Some
            && lenient_flag(primary) is Some {
            Some(
                AliasView {
                    name: n@,
                    locale: lenient_text(locale)->0,
                    type_: lenient_text(kind)->0,
                    primary: lenient_flag(primary)->0,
                },
            )
        } else {
            None
        },
        _ => None,
    }
}

/// The alias that a document writes: an object with a name, or a list of the
/// parts in order. A document with a malformed part writes none.
pub open spec fn alias_of(j: Json) -> Option<AliasView> {
    match j {
        Json::Object(_) => alias_of_parts(
            field(j, "name"@),
            field(j, "locale"@),
            field(j, "type"@),
            field(j, "primary"@),
        ),
        Json::List(items) => if items@.len() <= 4 {
            alias_of_parts(item(items@, 0), item(items@, 1), item(items@, 2), item(items@, 3))
        } else {
            None
        },
        _ => None,
    }
}

/// The aliases that documents write, in order.
pub open spec fn aliases_in(items: Seq<Json>) -> Seq<AliasView>
    decreases items.len(),
{
    if items.len() == 0 {
        Seq::empty()
    } else {
        match alias_of(items.last()) {
            Some(a) => aliases_in(items.drop_last()).push(a),
            None => aliases_in(items.drop_last()),
        }
    }
}

/// The aliases of an artist or a release.
pub open spec fn aliases_of(j: Json) -> Seq<AliasView> {
    match list_at(j, "aliases"@) {
        Some(items) => aliases_in(items),
        None => Seq::empty(),
    }
}

spec fn opt_deref(o: Option<&Json>) -> Option<Json> {
    match o {
        Some(j) => Some(*j),
        None => None,
    }
}

fn read_lenient_text(j: Option<&Json>) -> (r: Option<Option<String>>)
    ensures
        match r {
            Some(t) => lenient_text(opt_deref(j)) == Some(opt_view(t)),
            None => lenient_text(opt_deref(j)) is None,
        },
{
    match j {
        None => Some(None),
        Some(Json::Null) => Some(None),
        Some(Json::Text(s)) => Some(Some(s.clone())),
        Some(_) => None,
    }
}

fn read_alias_parts(
    name: Option<&Json>,
    locale: Option<&Json>,
    kind: Option<&Json>,
    primary: Option<&Json>,
) -> (r: Option<MbAlias>)
    ensures
        match r {
            Some(a) => alias_of_parts(
                opt_deref(name),
                opt_deref(locale),
                opt_deref(kind),
                opt_deref(primary),
            ) == Some(alias_view(a)),
            None => alias_of_parts(
                opt_deref(name),
                opt_deref(locale),
                opt_deref(kind),
                opt_deref(primary),
            ) is None,
        },
{
    let name = match name {
        Some(Json::Text(s)) => s.clone(),
        _ => {
            return None;
        },
    };
    let primary = match primary {
        None => false,
        Some(Json::Bool(b)) => *b,
        Some(_) => {
            return None;
        },
    };
    let locale = match read_lenient_text(locale) {
        Some(t) => t,
        None => {
            return None;
        },
    };
    let type_ = match read_lenient_text(kind) {
        Some(t) => t,
        None => {
            return None;
        },
    };
    Some(MbAlias { name, locale, type_, primary })
}

fn nth<'a>(items: &'a Vec<Json>, i: usize) -> (r: Option<&'a Json>)
    ensures
        opt_deref(r) == item(items@, i as int),
{
    if i < items.len() {
        Some(&items[i])
    } else {
        None
    }
}

fn read_alias(j: &Json) -> (r: Option<MbAlias>)
    ensures
        match r {
            Some(a) => alias_of(*j) == Some(alias_view(a)),
            None => alias_of(*j) is None,
        },
{
    match j {
        Json::Object(_) => read_alias_parts(
            get(j, "name"),
            get(j, "locale"),
            get(j, "type"),
            get(j, "primary"),
        ),
        Json::List(items) => if items.len() <= 4 {
            read_alias_parts(nth(items, 0), nth(items, 1), nth(items, 2), nth(items, 3))
        } else {
            None
        },
        _ => None,
    }
}

/// The aliases of an artist or a release. An alias that is malformed is
/// passed over.
pub fn parse_aliases(v: &Json) -> (r: Vec<MbAlias>)
    ensures
        alias_views(r@) == aliases_of(*v),
{
    let mut out: Vec<MbAlias> = Vec::new();
    assert(alias_views(out@) =~= Seq::<AliasView>::empty());
    if let Some(items) = get_list(v, "aliases") {
        let n: usize = items.len();
        let mut i: usize = 0;
        while i < n
            invariant
                i <= n,
                n == items@.len(),
                alias_views(out@) == aliases_in(items@.take(i as int)),
            decreases n - i,
        {
            let ghost before = out@;
            assert(items@.take(i + 1).drop_last() =~= items@.take(i as int));
            assert(items@.take(i + 1).last() == items@[i as int]);
            if let Some(a) = read_alias(&items[i]) {
                out.push(a);
                assert(alias_views(out@) =~= alias_views(before).push(alias_view(a)));
            }
            i += 1;
        }
        assert(items@.take(n as int) =~= items@);
    }
    out
}

// ---------------------------------------------------------------------------
// Full releases

/// A release with its tracks, and what is needed to choose among the names
/// in it.
#[derive(Debug)]
pub struct ParsedFullRelease {
    pub release: MbRelease,
    pub title_aliases: Vec<MbAlias>,
    pub release_artist_mbid: Option<String>,
    pub release_artist_sort: Option<String>,
    /// For each track, the first artist credited.
    pub track_artist_mbids: Vec<Option<String>>,
    /// For each track, the sort name of that artist.
    pub track_artist_sorts: Vec<Option<String>>,
}

/// The name in a credit: as credited, or else the artist's own.
pub open spec fn credit_name(c: Option<Json>) -> Option<Seq<char>> {
    match c {
        Some(c) => or_else(text_at(c, "name"@), text_within(c, "artist"@, "name"@)),
        None => None,
    }
}

/// A text of the artist in a credit.
pub open spec fn credit_artist(c: Option<Json>, key: Seq<char>) -> Option<Seq<char>> {
    match c {
        Some(c) => text_within(c, "artist"@, key),
        None => None,
    }
}

/// The dates of events.
pub open spec fn event_dates(events: Seq<Json>) -> Seq<Option<Seq<char>>> {
    events.map_values(|e: Json| text_at(e, "date"@))
}

/// The earliest date among the events of a release.
pub open spec fn first_event(v: Json) -> Option<Seq<char>> {
    match list_at(v, "release-events"@) {
        Some(events) => earliest(event_dates(events)),
        None => None,
    }
}

/// The date of a release: its own, else its group's, else its first event's.
pub open spec fn release_date(v: Json) -> Option<Seq<char>> {
    or_else(
        text_at(v, "date"@),
        or_else(text_within(v, "release-group"@, "first-release-date"@), first_event(v)),
    )
}

/// The tracks on a medium.
pub open spec fn medium_tracks(m: Json) -> Seq<Json> {
    match list_at(m, "tracks"@) {
        Some(ts) => ts,
        None => Seq::empty(),
    }
}

/// A track and the medium that it is on, counted from one.
pub struct Placed {
    pub disc: int,
    pub track: Json,
}

/// The tracks of one medium in their places.
pub open spec fn placed(disc: int, ts: Seq<Json>) -> Seq<Placed> {
    ts.map_values(|track: Json| Placed { disc, track })
}

/// The tracks of the first `n` media.
pub open spec fn tracks_on(media: Seq<Json>, n: int) -> Seq<Placed>
    decreases n,
{
    if n <= 0 {
        Seq::empty()
    } else {
        tracks_on(media, n - 1) + placed(n, medium_tracks(media[n - 1]))
    }
}

/// The tracks of a release, medium by medium.
pub open spec fn release_tracks(v: Json) -> Seq<Placed> {
    match list_at(v, "media"@) {
        Some(media) => tracks_on(media, media.len() as int),
        None => Seq::empty(),
    }
}

/// Whether a track says what its document says.
pub open spec fn is_track(t: MbTrack, p: Placed) -> bool {
    &&& t.disc == p.disc as u32
    &&& t.position == (match number_at(p.track, "position"@) {
        Some(n) => n as u32,
        None => 0,
    })
    &&& t.title@ == text_or_empty(text_at(p.track, "title"@))
    &&& opt_view(t.artist) == credit_name(first_at(p.track, "artist-credit"@))
    &&& t.duration_ms == number_at(p.track, "length"@)
    &&& t.recording_id@ == text_or_empty(text_within(p.track, "recording"@, "id"@))
}

/// Whether a list of tracks, and what goes with them, says what their
/// documents say.
pub open spec fn are_tracks(
    ts: Seq<MbTrack>,
    mbids: Seq<Option<String>>,
    sorts: Seq<Option<String>>,
    ps: Seq<Placed>,
) -> bool {
    &&& ts.len() == ps.len()
    &&& mbids.len() == ps.len()
    &&& sorts.len() == ps.len()
    &&& forall|k: int| 0 <= k < ps.len() ==> is_track(#[trigger] ts[k], ps[k])
    &&& forall|k: int|
        0 <= k < ps.len() ==> opt_view(#[trigger] mbids[k]) == credit_artist(
            first_at(ps[k].track, "artist-credit"@),
            "id"@,
        )
    &&& forall|k: int|
        0 <= k < ps.len() ==> opt_view(#[trigger] sorts[k]) == credit_artist(
            first_at(ps[k].track, "artist-credit"@),
            "sort-name"@,
        )
}

/// The label of a release: the first one.
pub open spec fn release_label(v: Json) -> Option<Seq<char>> {
    match first_at(v, "label-info"@) {
        Some(l) => text_within(l, "label"@, "name"@),
        None => None,
    }
}

/// Whether a parsed release says what its document says.
pub open spec fn is_release(p: ParsedFullRelease, v: Json) -> bool {
    let r = p.release;
    let credit = first_at(v, "artist-credit"@);
    &&& r.id@ == text_or_empty(text_at(v, "id"@))
    &&& r.title@ == text_or_empty(text_at(v, "title"@))
    &&& r.artist@ == text_or_empty(credit_name(credit))
    &&& is_year(r.year, year_of_date(release_date(v)))
    &&& opt_view(r.country) == text_at(v, "country"@)
    &&& opt_view(r.label) == release_label(v)
    &&& opt_view(r.status) == text_at(v, "status"@)
    &&& r.track_count == release_tracks(v).len() as u32
    &&& r.medium_count == (match list_at(v, "media"@) {
        Some(media) => media.len() as u32,
        None => 0,
    })
    &&& r.api_score == 100
    &&& opt_view(r.release_group_id) == text_within(v, "release-group"@, "id"@)
    &&& r.group_min_year is None
    &&& alias_views(p.title_aliases@) == aliases_of(v)
    &&& opt_view(p.release_artist_mbid) == credit_artist(credit, "id"@)
    &&& opt_view(p.release_artist_sort) == credit_artist(credit, "sort-name"@)
    &&& are_tracks(r.tracks@, p.track_artist_mbids@, p.track_artist_sorts@, release_tracks(v))
}

fn read_credit_name(c: Option<&Json>) -> (r: Option<String>)
    ensures
        opt_view(r) == credit_name(opt_deref(c)),
{
    match c {
        Some(c) => either(get_text(c, "name"), get_text_within(c, "artist", "name")),
        None => None,
    }
}

fn read_credit_artist(c: Option<&Json>, key: &str) -> (r: Option<String>)
    ensures
        opt_view(r) == credit_artist(opt_deref(c), key@),
{
    match c {
        Some(c) => get_text_within(c, "artist", key),
        None => None,
    }
}

fn read_first_event(v: &Json) -> (r: Option<String>)
    ensures
        opt_view(r) == first_event(*v),
{
    match get_list(v, "release-events") {
        Some(events) => {
            let mut dates: Vec<Option<String>> = Vec::new();
            let n: usize = events.len();
            let mut i: usize = 0;
            while i < n
                invariant
                    i <= n,
                    n == events@.len(),
                    opt_views(dates@) == event_dates(events@).take(i as int),
                decreases n - i,
            {
                let ghost before = dates@;
                let d = get_text(&events[i], "date");
                dates.push(d);
                i += 1;
                assert(opt_views(dates@) =~= opt_views(before).push(opt_view(d)));
                assert(event_dates(events@).take(i as int) =~= event_dates(events@).take(i - 1).push(
                    event_dates(events@)[i - 1],
                ));
            }
            assert(event_dates(events@).take(n as int) =~= event_dates(events@));
            earliest_date(&dates)
        },
        None => None,
    }
}

fn read_track(t: &Json, disc: u32, Ghost(place): Ghost<int>) -> (r: MbTrack)
    requires
        disc == place as u32,
    ensures
        is_track(r, Placed { disc: place, track: *t }),
{
    let position = match get_number(t, "position") {
        Some(n) => n as u32,
        None => 0,
    };
    MbTrack {
        disc,
        position,
        title: or_empty(get_text(t, "title")),
        artist: read_credit_name(get_first(t, "artist-credit")),
        duration_ms: get_number(t, "length"),
        recording_id: or_empty(get_text_within(t, "recording", "id")),
    }
}

proof fn lemma_are_tracks_push(
    ts: Seq<MbTrack>,
    mbids: Seq<Option<String>>,
    sorts: Seq<Option<String>>,
    ps: Seq<Placed>,
    t: MbTrack,
    mbid: Option<String>,
    sort: Option<String>,
    p: Placed,
)
    requires
        are_tracks(ts, mbids, sorts, ps),
        is_track(t, p),
        opt_view(mbid) == credit_artist(first_at(p.track, "artist-credit"@), "id"@),
        opt_view(sort) == credit_artist(first_at(p.track, "artist-credit"@), "sort-name"@),
    ensures
        are_tracks(ts.push(t), mbids.push(mbid), sorts.push(sort), ps.push(p)),
{
}

/// What a release's document says.
pub fn parse_full_release(v: &Json) -> (r: ParsedFullRelease)
    ensures
        is_release(r, *v),
{
    let credit = get_first(v, "artist-credit");
    let date = either(
        get_text(v, "date"),
        either(
            get_text_within(v, "release-group", "first-release-date"),
            read_first_event(v),
        ),
    );
    let label = match get_first(v, "label-info") {
        Some(l) => get_text_within(l, "label", "name"),
        None => None,
    };
    let mut tracks: Vec<MbTrack> = Vec::new();
    let mut mbids: Vec<Option<String>> = Vec::new();
    let mut sorts: Vec<Option<String>> = Vec::new();
    let mut medium_count: u32 = 0;
    if let Some(media) = get_list(v, "media") {
        let n: usize = media.len();
        medium_count = n as u32;
        let mut i: usize = 0;
        while i < n
            invariant
                i <= n,
                n == media@.len(),
                are_tracks(tracks@, mbids@, sorts@, tracks_on(media@, i as int)),
            decreases n - i,
        {
            let disc: u32 = (i + 1) as u32;
            let ghost done = tracks_on(media@, i as int);
            let ghost here = placed(i + 1, medium_tracks(media@[i as int]));
            match get_list(&media[i], "tracks") {
                Some(ts) => {
                    let m: usize = ts.len();
                    let mut j: usize = 0;
                    assert(done + here.take(0) =~= done);
                    while j < m
                        invariant
                            i < n,
                            n == media@.len(),
                            j <= m,
                            m == ts@.len(),
                            disc == (i + 1) as u32,
                            here == placed(i + 1, ts@),
                            are_tracks(tracks@, mbids@, sorts@, done + here.take(j as int)),
                        decreases m - j,
                    {
                        let t = &ts[j];
                        let ghost p = Placed { disc: i + 1, track: *t };
                        let track = read_track(t, disc, Ghost(i + 1));
                        let mbid = read_credit_artist(get_first(t, "artist-credit"), "id");
                        let sort = read_credit_artist(get_first(t, "artist-credit"), "sort-name");
                        proof {
                            lemma_are_tracks_push(
                                tracks@,
                                mbids@,
                                sorts@,
                                done + here.take(j as int),
                                track,
                                mbid,
                                sort,
                                p,
                            );
                            assert(here[j as int] == p);
                            assert((done + here.take(j as int)).push(p) =~= done + here.take(j + 1));
                        }
                        tracks.push(track);
                        mbids.push(mbid);
                        sorts.push(sort);
                        j += 1;
                    }
                    assert(here.take(m as int) =~= here);
                },
                None => {
                    assert(done + here =~= done);
                },
            }
            i += 1;
        }
    }
    let track_count: u32 = tracks.len() as u32;
    ParsedFullRelease {
        release: MbRelease {
            id: or_empty(get_text(v, "id")),
            title: or_empty(get_text(v, "title")),
            artist: or_empty(read_credit_name(credit)),
            year: year_of(&date),
            country: get_text(v, "country"),
            label,
            status: get_text(v, "status"),
            track_count,
            medium_count,
            tracks,
            api_score: 100,
            release_group_id: get_text_within(v, "release-group", "id"),
            group_min_year: None,
        },
        title_aliases: parse_aliases(v),
        release_artist_mbid: read_credit_artist(credit, "id"),
        release_artist_sort: read_credit_artist(credit, "sort-name"),
        track_artist_mbids: mbids,
        track_artist_sorts: sorts,
    }
}

// ---------------------------------------------------------------------------
// Release groups

/// The year of a group's first release.
pub open spec fn group_year(v: Json) -> Option<int> {
    year_of_date(text_at(v, "first-release-date"@))
}

/// The year of a group's first release.
pub fn parse_group_year(v: &Json) -> (r: Option<i32>)
    ensures
        is_year(r, group_year(*v)),
{
    year_of(&get_text(v, "first-release-date"))
}

/// Whether a release of a group is listed: it has an identifier and is not a
/// pseudo-release.
pub open spec fn is_listed(r: Json) -> bool {
    &&& text_at(r, "id"@) is Some
    &&& !(text_at(r, "status"@) is Some && crate::text::ascii_lowered(text_at(r, "status"@)->0)
        == crate::text::ascii_lowered("Pseudo-Release"@))
}

/// The releases that are listed, in order.
pub open spec fn listed(rs: Seq<Json>) -> Seq<Json>
    decreases rs.len(),
{
    if rs.len() == 0 {
        Seq::empty()
    } else if is_listed(rs.last()) {
        listed(rs.drop_last()).push(rs.last())
    } else {
        listed(rs.drop_last())
    }
}

/// The releases of a group that are listed.
pub open spec fn group_listing(v: Json) -> Seq<Json> {
    match list_at(v, "releases"@) {
        Some(rs) => listed(rs),
        None => Seq::empty(),
    }
}

/// The year of a release in a group: by its own date, else by its first
/// event, else by the group's.
pub open spec fn listed_year(r: Json, group: Option<int>) -> Option<int> {
    let own = year_of_date(or_else(text_at(r, "date"@), first_event(r)));
    if own is Some { own } else { group }
}

/// Whether a candidate says what its document in a group says. What the
/// document lacks comes from the release that led to the group.
pub open spec fn is_alternate(
    m: MbRelease,
    r: Json,
    group: Option<int>,
    rg_id: Seq<char>,
    source: MbRelease,
) -> bool {
    &&& m.id@ == text_or_empty(text_at(r, "id"@))
    &&& m.title@ == (match text_at(r, "title"@) {
        Some(t) => t,
        None => source.title@,
    })
    &&& m.artist == source.artist
    &&& is_year(m.year, listed_year(r, group))
    &&& opt_view(m.country) == text_at(r, "country"@)
    &&& m.label == source.label
    &&& opt_view(m.status) == text_at(r, "status"@)
    &&& m.track_count == source.track_count
    &&& m.medium_count == source.medium_count
    &&& m.tracks@.len() == 0
    &&& m.api_score == source.api_score
    &&& opt_view(m.release_group_id) == Some(rg_id)
    &&& m.group_min_year is None
}

/// Where a year sorts. An unknown one comes last.
pub open spec fn year_key(y: Option<int>) -> int {
    match y {
        Some(y) => y,
        None => i32::MAX as int,
    }
}

/// Earlier releases first, then by identifier.
pub open spec fn earlier(rs: Seq<Json>, group: Option<int>) -> spec_fn(int, int) -> bool {
    |i: int, j: int|
        {
            let a = year_key(listed_year(rs[i], group));
            let b = year_key(listed_year(rs[j], group));
            a < b || (a == b && text_order(
                text_or_empty(text_at(rs[i], "id"@)),
                text_or_empty(text_at(rs[j], "id"@)),
            ) <= 0)
        }
}

/// `ms` are the listed releases of a group, the earliest first.
pub open spec fn are_alternates(ms: Seq<MbRelease>, v: Json, rg_id: Seq<char>, source: MbRelease) -> bool {
    let rs = group_listing(v);
    let group = group_year(v);
    exists|order: Seq<usize>| #[trigger]
        stably_ordered(order, earlier(rs, group), rs.len() as int) && ms.len() == rs.len()
            && forall|k: int|
            0 <= k < ms.len() ==> is_alternate(
                #[trigger] ms[k],
                rs[order[k] as int],
                group,
                rg_id,
                source,
            )
}

fn read_alternate(r: &Json, id: String, group: Option<i32>, rg_id: &str, source: &MbRelease, Ghost(
    g,
): Ghost<Option<int>>) -> (m: MbRelease)
    requires
        text_at(*r, "id"@) == Some(id@),
        is_year(group, g),
    ensures
        is_alternate(m, *r, g, rg_id@, *source),
{
    let own = year_of(&either(get_text(r, "date"), read_first_event(r)));
    let year = match own {
        Some(y) => Some(y),
        None => group,
    };
    let title = match get_text(r, "title") {
        Some(t) => t,
        None => source.title.clone(),
    };
    MbRelease {
        id,
        title,
        artist: source.artist.clone(),
        year,
        country: get_text(r, "country"),
        label: copy_text(&source.label),
        status: get_text(r, "status"),
        track_count: source.track_count,
        medium_count: source.medium_count,
        tracks: Vec::new(),
        api_score: source.api_score,
        release_group_id: Some(rg_id.to_owned()),
        group_min_year: None,
    }
}

proof fn lemma_earlier_is_total(rs: Seq<Json>, group: Option<int>)
    ensures
        total_order(earlier(rs, group), rs.len() as int),
{
    let le = earlier(rs, group);
    assert forall|i: int, j: int| 0 <= i < rs.len() && 0 <= j < rs.len() implies #[trigger] le(i, j)
        || le(j, i) by {
        lemma_text_order_flip(
            text_or_empty(text_at(rs[i], "id"@)),
            text_or_empty(text_at(rs[j], "id"@)),
        );
    }
    assert forall|i: int, j: int, k: int|
        0 <= i < rs.len() && 0 <= j < rs.len() && 0 <= k < rs.len() && #[trigger] le(i, j)
            && #[trigger] le(j, k) implies le(i, k) by {
        let a = text_or_empty(text_at(rs[i], "id"@));
        let b = text_or_empty(text_at(rs[j], "id"@));
        let c = text_or_empty(text_at(rs[k], "id"@));
        if text_order(a, b) <= 0 && text_order(b, c) <= 0 {
            lemma_text_order_transitive(a, b, c);
        }
    }
}

/// Where a year sorts.
spec fn year_place(y: Option<i32>) -> int {
    match y {
        Some(y) => y as int,
        None => i32::MAX as int,
    }
}

/// Whether a release comes no later than another.
spec fn sorts_first(a: MbRelease, b: MbRelease) -> bool {
    year_place(a.year) < year_place(b.year) || (year_place(a.year) == year_place(b.year)
        && text_order(a.id@, b.id@) <= 0)
}

fn sort_year(y: Option<i32>) -> (r: i32)
    ensures
        r == year_place(y),
{
    match y {
        Some(y) => y,
        None => i32::MAX,
    }
}

/// The releases of a group that can stand in for one of them, the earliest
/// first.
pub fn parse_group_releases(v: &Json, rg_id: &str, source: &MbRelease) -> (ms: Vec<MbRelease>)
    ensures
        are_alternates(ms@, *v, rg_id@, *source),
{
    let group = parse_group_year(v);
    let ghost g = group_year(*v);
    let ghost rs = group_listing(*v);
    let mut list: Vec<MbRelease> = Vec::new();
    if let Some(items) = get_list(v, "releases") {
        let n: usize = items.len();
        let mut i: usize = 0;
        while i < n
            invariant
                i <= n,
                n == items@.len(),
                is_year(group, g),
                list@.len() == listed(items@.take(i as int)).len(),
                forall|k: int|
                    0 <= k < list@.len() ==> is_alternate(
                        #[trigger] list@[k],
                        listed(items@.take(i as int))[k],
                        g,
                        rg_id@,
                        *source,
                    ),
            decreases n - i,
        {
            let r = &items[i];
            assert(items@.take(i + 1).drop_last() =~= items@.take(i as int));
            assert(items@.take(i + 1).last() == items@[i as int]);
            let status = get_text(r, "status");
            if let Some(id) = get_text(r, "id") {
                if !reads(&status, "Pseudo-Release") {
                    let m = read_alternate(r, id, group, rg_id, source, Ghost(g));
                    list.push(m);
                }
            }
            i += 1;
        }
        assert(items@.take(n as int) =~= items@);
    }
    let n: usize = list.len();
    let ghost le = earlier(rs, g);
    proof {
        lemma_earlier_is_total(rs, g);
    }
    let before = |i: usize, j: usize| -> (b: bool)
        requires
            list@.len() > i,
            list@.len() > j,
        ensures
            b == sorts_first(list@[i as int], list@[j as int]),
        {
            let a: i32 = sort_year(list[i].year);
            let b: i32 = sort_year(list[j].year);
            a < b || (a == b && text_rank(list[i].id.as_str(), list[j].id.as_str()) <= 0)
        };
    proof {
        assert forall|i: usize, j: usize| i < n && j < n implies #[trigger] sorts_first(
            list@[i as int],
            list@[j as int],
        ) == le(i as int, j as int) by {
            assert(is_alternate(list@[i as int], rs[i as int], g, rg_id@, *source));
            assert(is_alternate(list@[j as int], rs[j as int], g, rg_id@, *source));
        }
    }
    let order = stable_order(n, before, Ghost(le));
    let mut out: Vec<MbRelease> = Vec::new();
    let mut k: usize = 0;
    while k < n
        invariant
            k <= n,
            n == list@.len(),
            n == rs.len(),
            stably_ordered(order@, le, n as int),
            forall|k: int|
                0 <= k < list@.len() ==> is_alternate(
                    #[trigger] list@[k],
                    rs[k],
                    g,
                    rg_id@,
                    *source,
                ),
            out@.len() == k,
            forall|m: int|
                0 <= m < k ==> is_alternate(
                    #[trigger] out@[m],
                    rs[order@[m] as int],
                    g,
                    rg_id@,
                    *source,
                ),
        decreases n - k,
    {
        let m = list[order[k]].clone();
        assert(is_alternate(list@[order@[k as int] as int], rs[order@[k as int] as int], g, rg_id@, *source));
        out.push(m);
        k += 1;
    }
    assert(stably_ordered(order@, earlier(rs, g), rs.len() as int));
    out
}

/// The alternatives come in the order of their years, unknown years last.
pub proof fn law_alternates_are_chronological(
    ms: Seq<MbRelease>,
    v: Json,
    rg_id: Seq<char>,
    source: MbRelease,
    a: int,
    b: int,
)
    requires
        are_alternates(ms, v, rg_id, source),
        0 <= a < b < ms.len(),
    ensures
        ms[a].year is Some && ms[b].year is Some ==> ms[a].year->0 <= ms[b].year->0,
        ms[a].year is None && ms[b].year is Some ==> ms[b].year->0 == i32::MAX,
{
    let rs = group_listing(v);
    let group = group_year(v);
    let order = choose|order: Seq<usize>| #[trigger]
        stably_ordered(order, earlier(rs, group), rs.len() as int) && ms.len() == rs.len()
            && forall|k: int|
            0 <= k < ms.len() ==> is_alternate(
                #[trigger] ms[k],
                rs[order[k] as int],
                group,
                rg_id,
                source,
            );
    assert(is_alternate(ms[a], rs[order[a] as int], group, rg_id, source));
    assert(is_alternate(ms[b], rs[order[b] as int], group, rg_id, source));
    assert(comes_before(earlier(rs, group), order[a] as int, order[b] as int));
}

// ---------------------------------------------------------------------------
// Alternatives to pseudo-releases

/// The identifiers of releases.
pub open spec fn ids(rs: Seq<MbRelease>) -> Seq<Seq<char>> {
    rs.map_values(|r: MbRelease| r.id@)
}

/// The alternatives that are neither among the releases nor among those
/// before them.
pub open spec fn additions(rs: Seq<MbRelease>, alternates: Seq<MbRelease>) -> Seq<MbRelease>
    decreases alternates.len(),
{
    if alternates.len() == 0 {
        Seq::empty()
    } else {
        let prev = additions(rs, alternates.drop_last());
        let a = alternates.last();
        if ids(rs).contains(a.id@) || ids(prev).contains(a.id@) { prev } else { prev.push(a) }
    }
}

fn has_id(rs: &Vec<MbRelease>, id: &str) -> (r: bool)
    ensures
        r == ids(rs@).contains(id@),
{
    let mut i: usize = 0;
    while i < rs.len()
        invariant
            i <= rs@.len(),
            forall|k: int| 0 <= k < i ==> (#[trigger] rs@[k]).id@ != id@,
        decreases rs@.len() - i,
    {
        if same(rs[i].id.as_str(), id) {
            assert(ids(rs@)[i as int] == id@);
            return true;
        }
        i += 1;
    }
    assert(!ids(rs@).contains(id@)) by {
        if ids(rs@).contains(id@) {
            let k = choose|k: int| 0 <= k < ids(rs@).len() && ids(rs@)[k] == id@;
            assert(rs@[k].id@ == id@);
        }
    }
    false
}

/// The positions of the pseudo-releases whose release group is known: those
/// for which alternatives are looked up.
pub open spec fn is_pseudo_source(r: MbRelease) -> bool {
    status_reads(r.status, "Pseudo-Release"@) && r.release_group_id is Some
}

/// The positions below `n` of the releases for which alternatives are looked
/// up.
pub open spec fn sources_below(rs: Seq<MbRelease>, n: int) -> Seq<usize>
    decreases n,
{
    if n <= 0 {
        Seq::empty()
    } else if is_pseudo_source(rs[n - 1]) {
        sources_below(rs, n - 1).push((n - 1) as usize)
    } else {
        sources_below(rs, n - 1)
    }
}

/// The positions of the releases for which alternatives are looked up.
pub fn pseudo_sources(rs: &Vec<MbRelease>) -> (r: Vec<usize>)
    ensures
        r@ == sources_below(rs@, rs@.len() as int),
        forall|k: int|
            0 <= k < r@.len() ==> #[trigger] r@[k] < rs@.len() && is_pseudo_source(
                rs@[r@[k] as int],
            ),
{
    let mut out: Vec<usize> = Vec::new();
    let mut i: usize = 0;
    while i < rs.len()
        invariant
            i <= rs@.len(),
            out@ == sources_below(rs@, i as int),
            forall|k: int|
                0 <= k < out@.len() ==> #[trigger] out@[k] < rs@.len() && is_pseudo_source(
                    rs@[out@[k] as int],
                ),
        decreases rs@.len() - i,
    {
        if rs[i].is_pseudo_release() && rs[i].release_group_id.is_some() {
            out.push(i);
        }
        i += 1;
    }
    out
}

/// Puts the alternatives that are new before the releases, so that proper
/// releases come ahead of the pseudo-releases of their group.
pub fn with_alternates(rs: Vec<MbRelease>, alternates: Vec<MbRelease>) -> (r: Vec<MbRelease>)
    ensures
        r@ == additions(rs@, alternates@) + rs@,
{
    let mut rest = alternates;
    let mut releases = rs;
    let mut out: Vec<MbRelease> = Vec::new();
    let ghost all = alternates@;
    assert(all.take(0) =~= Seq::<MbRelease>::empty());
    assert(all.skip(0) =~= all);
    let ghost mut n: int = 0;
    while rest.len() > 0
        invariant
            0 <= n <= all.len(),
            rest@ == all.skip(n),
            out@ == additions(releases@, all.take(n)),
        decreases rest@.len(),
    {
        let a = rest.remove(0);
        proof {
            assert(all.take(n + 1).drop_last() =~= all.take(n));
            assert(all.take(n + 1).last() == a);
            assert(rest@ =~= all.skip(n + 1));
            n = n + 1;
        }
        if !has_id(&releases, a.id.as_str()) && !has_id(&out, a.id.as_str()) {
            out.push(a);
        }
    }
    assert(all.take(n) =~= all);
    out.append(&mut releases);
    out
}

/// No alternative is added twice, or beside a release that is there already,
/// and no release is lost.
pub proof fn law_additions_are_new(rs: Seq<MbRelease>, alternates: Seq<MbRelease>)
    ensures
        ids(additions(rs, alternates)).no_duplicates(),
        forall|k: int|
            0 <= k < additions(rs, alternates).len() ==> !ids(rs).contains(
                (#[trigger] additions(rs, alternates)[k]).id@,
            ),
    decreases alternates.len(),
{
    if alternates.len() > 0 {
        law_additions_are_new(rs, alternates.drop_last());
        let prev = additions(rs, alternates.drop_last());
        let now = additions(rs, alternates);
        let a = alternates.last();
        if now.len() > prev.len() {
            assert(ids(now) =~= ids(prev).push(a.id@));
            assert forall|k: int| 0 <= k < now.len() implies !ids(rs).contains(
                (#[trigger] now[k]).id@,
            ) by {
                if k < prev.len() {
                    assert(now[k] == prev[k]);
                }
            }
        }
    }
}

/// The releases that come first, `limit` at most.
pub fn first_releases(rs: Vec<MbRelease>, limit: u32) -> (r: Vec<MbRelease>)
    ensures
        r@ == (if rs@.len() <= limit { rs@ } else { rs@.take(limit as int) }),
{
    let mut out = rs;
    if out.len() > limit as usize {
        out.truncate(limit as usize);
        assert(out@ =~= rs@.take(limit as int));
    }
    out
}

// ---------------------------------------------------------------------------
// Choosing names

/// The aliases of artists that were looked up.
#[derive(Debug)]
pub struct AliasCache {
    entries: Vec<(String, Vec<MbAlias>)>,
}

/// What is known of the aliases of artists, in the order of the lookups.
pub open spec fn known_aliases(entries: Seq<(String, Vec<MbAlias>)>) -> Seq<
    (Seq<char>, Seq<MbAlias>),
> {
    entries.map_values(|e: (String, Vec<MbAlias>)| (e.0@, e.1@))
}

/// The aliases known of an artist.
pub open spec fn cached(entries: Seq<(Seq<char>, Seq<MbAlias>)>, mbid: Seq<char>) -> Option<
    Seq<MbAlias>,
>
    decreases entries.len(),
{
    if entries.len() == 0 {
        None
    } else if entries[0].0 == mbid {
        Some(entries[0].1)
    } else {
        cached(entries.skip(1), mbid)
    }
}

impl AliasCache {
    /// What is known.
    pub closed spec fn known(self) -> Seq<(Seq<char>, Seq<MbAlias>)> {
        known_aliases(self.entries@)
    }

    /// Nothing known yet.
    pub fn new() -> (r: Self)
        ensures
            r.known() == Seq::<(Seq<char>, Seq<MbAlias>)>::empty(),
    {
        let r = AliasCache { entries: Vec::new() };
        assert(r.known() =~= Seq::<(Seq<char>, Seq<MbAlias>)>::empty());
        r
    }

    /// Takes in what a lookup gave.
    pub fn insert(&mut self, mbid: String, aliases: Vec<MbAlias>)
        ensures
            final(self).known() == old(self).known().push((mbid@, aliases@)),
    {
        let ghost before = self.entries@;
        self.entries.push((mbid, aliases));
        assert(known_aliases(self.entries@) =~= known_aliases(before).push((mbid@, aliases@)));
    }

    /// The place of an artist among what is known.
    fn find(&self, mbid: &str) -> (r: Option<usize>)
        ensures
            match r {
                Some(i) => i < self.entries@.len() && cached(self.known(), mbid@) == Some(
                    self.entries@[i as int].1@,
                ),
                None => cached(self.known(), mbid@) is None,
            },
    {
        let ghost es = self.known();
        let n: usize = self.entries.len();
        let mut i: usize = 0;
        assert(es.skip(0) =~= es);
        while i < n
            invariant
                i <= n,
                n == self.entries@.len(),
                es == known_aliases(self.entries@),
                es == self.known(),
                cached(es, mbid@) == cached(es.skip(i as int), mbid@),
            decreases n - i,
        {
            assert(es.skip(i as int)[0] == es[i as int]);
            assert(es.skip(i as int).skip(1) =~= es.skip(i + 1));
            if same(self.entries[i].0.as_str(), mbid) {
                return Some(i);
            }
            i += 1;
        }
        None
    }

    /// The preferred name of an artist, by the aliases known of it.
    fn pick(&self, name: &str, sort: &Option<String>, mbid: &str) -> (r: String)
        ensures
            r@ == chosen_name(
                self.known(),
                Credit { name: name@, sort: opt_view(*sort), mbid: mbid@ },
            ),
    {
        match self.find(mbid) {
            Some(i) => pick_preferred_name(
                name,
                borrow_text(sort),
                self.entries[i].1.as_slice(),
                NameScriptPreference::Latin,
                AliasKind::Artist,
            ),
            None => {
                let none: Vec<MbAlias> = Vec::new();
                assert(none@ =~= Seq::<MbAlias>::empty());
                pick_preferred_name(
                    name,
                    borrow_text(sort),
                    none.as_slice(),
                    NameScriptPreference::Latin,
                    AliasKind::Artist,
                )
            },
        }
    }
}

/// A credited artist whose name may be rendered otherwise.
pub struct Credit {
    pub name: Seq<char>,
    pub sort: Option<Seq<char>>,
    pub mbid: Seq<char>,
}

/// The rendering of a credit in Latin script, by what is known.
pub open spec fn chosen_name(known: Seq<(Seq<char>, Seq<MbAlias>)>, c: Credit) -> Seq<char> {
    let aliases = match cached(known, c.mbid) {
        Some(aliases) => aliases,
        None => Seq::empty(),
    };
    preferred(c.name, c.sort, aliases, NameScriptPreference::Latin, AliasKind::Artist)
}

/// What looking through credits has found: what is known now, and the artist
/// to look up next, if one is missing.
pub struct Survey {
    pub known: Seq<(Seq<char>, Seq<MbAlias>)>,
    pub ask: Option<Seq<char>>,
}

/// One credit. A Latin name needs no lookup, and its artist counts as known.
pub open spec fn look_at(known: Seq<(Seq<char>, Seq<MbAlias>)>, c: Credit) -> Survey {
    if cached(known, c.mbid) is Some {
        Survey { known, ask: None }
    } else if pure_latin(c.name) {
        Survey { known: known.push((c.mbid, Seq::empty())), ask: None }
    } else {
        Survey { known, ask: Some(c.mbid) }
    }
}

/// Credits in order, up to the first whose artist must be looked up.
pub open spec fn survey(known: Seq<(Seq<char>, Seq<MbAlias>)>, cs: Seq<Credit>) -> Survey
    decreases cs.len(),
{
    if cs.len() == 0 {
        Survey { known, ask: None }
    } else {
        let s = survey(known, cs.drop_last());
        if s.ask is Some { s } else { look_at(s.known, cs.last()) }
    }
}

/// The credit of a release, where its artist is identified.
pub open spec fn release_credit(p: ParsedFullRelease) -> Seq<Credit> {
    match p.release_artist_mbid {
        Some(mbid) => seq![
            Credit {
                name: p.release.artist@,
                sort: opt_view(p.release_artist_sort),
                mbid: mbid@,
            },
        ],
        None => Seq::empty(),
    }
}

/// An element of parallel data, or nothing past its end.
pub open spec fn at(v: Seq<Option<String>>, k: int) -> Option<Seq<char>> {
    if 0 <= k < v.len() { opt_view(v[k]) } else { None }
}

/// The credit of a track, where it has one whose artist is identified.
pub open spec fn track_credit(p: ParsedFullRelease, k: int) -> Option<Credit> {
    match (opt_view(p.release.tracks@[k].artist), at(p.track_artist_mbids@, k)) {
        (Some(name), Some(mbid)) => Some(Credit { name, sort: at(p.track_artist_sorts@, k), mbid }),
        _ => None,
    }
}

/// The credits of the first `n` tracks.
pub open spec fn track_credits(p: ParsedFullRelease, n: int) -> Seq<Credit>
    decreases n,
{
    if n <= 0 {
        Seq::empty()
    } else {
        match track_credit(p, n - 1) {
            Some(c) => track_credits(p, n - 1).push(c),
            None => track_credits(p, n - 1),
        }
    }
}

/// The credits of a release and its tracks.
pub open spec fn credits(p: ParsedFullRelease) -> Seq<Credit> {
    release_credit(p) + track_credits(p, p.release.tracks@.len() as int)
}

/// A track with its artist rendered in Latin script.
pub open spec fn is_renamed_track(
    t: MbTrack,
    p: ParsedFullRelease,
    k: int,
    known: Seq<(Seq<char>, Seq<MbAlias>)>,
) -> bool {
    let old = p.release.tracks@[k];
    &&& t.disc == old.disc
    &&& t.position == old.position
    &&& t.title == old.title
    &&& t.duration_ms == old.duration_ms
    &&& t.recording_id == old.recording_id
    &&& opt_view(t.artist) == (match track_credit(p, k) {
        Some(c) => Some(chosen_name(known, c)),
        None => opt_view(old.artist),
    })
}

/// A release with its title and its artists rendered in Latin script. The
/// titles of tracks stay, for hardly any of them has aliases.
pub open spec fn is_renamed(
    r: MbRelease,
    p: ParsedFullRelease,
    known: Seq<(Seq<char>, Seq<MbAlias>)>,
) -> bool {
    let old = p.release;
    &&& r.id == old.id
    &&& r.title@ == preferred(
        old.title@,
        None,
        p.title_aliases@,
        NameScriptPreference::Latin,
        AliasKind::Release,
    )
    &&& r.artist@ == (if release_credit(p).len() > 0 {
        chosen_name(known, release_credit(p)[0])
    } else {
        old.artist@
    })
    &&& r.year == old.year
    &&& r.country == old.country
    &&& r.label == old.label
    &&& r.status == old.status
    &&& r.track_count == old.track_count
    &&& r.medium_count == old.medium_count
    &&& r.api_score == old.api_score
    &&& r.release_group_id == old.release_group_id
    &&& r.group_min_year == old.group_min_year
    &&& r.tracks@.len() == old.tracks@.len()
    &&& forall|k: int|
        0 <= k < old.tracks@.len() ==> is_renamed_track(#[trigger] r.tracks@[k], p, k, known)
}

/// What resolving the names of a release comes to.
#[derive(Debug)]
pub enum Resolved {
    Release(MbRelease),
    /// The aliases of this artist are needed first.
    Ask(String),
}

fn nth_text(v: &Vec<Option<String>>, k: usize) -> (r: Option<String>)
    ensures
        opt_view(r) == at(v@, k as int),
{
    if k < v.len() {
        copy_text(&v[k])
    } else {
        None
    }
}

/// Looks at one credit; gives the artist to look up, if it must be.
fn visit(cache: &mut AliasCache, name: &str, mbid: &str, Ghost(c): Ghost<Credit>) -> (r: Option<
    String,
>)
    requires
        c.name == name@,
        c.mbid == mbid@,
    ensures
        final(cache).known() == look_at(old(cache).known(), c).known,
        opt_view(r) == look_at(old(cache).known(), c).ask,
{
    if cache.find(mbid).is_some() {
        None
    } else if is_pure_latin(name) {
        let none: Vec<MbAlias> = Vec::new();
        assert(none@ =~= Seq::<MbAlias>::empty());
        cache.insert(mbid.to_owned(), none);
        None
    } else {
        Some(mbid.to_owned())
    }
}

/// Renders the names of a release in the preferred script. Where the aliases
/// of an artist are not known yet, says which to look up; what is looked up
/// goes into the cache, and then this is asked again.
pub fn resolve_names(p: &ParsedFullRelease, pref: NameScriptPreference, cache: &mut AliasCache) -> (r:
    Resolved)
    ensures
        pref == NameScriptPreference::Native ==> final(cache).known() == old(cache).known()
            && r is Release && same_release(r->Release_0, p.release),
        pref == NameScriptPreference::Latin ==> ({
            let s = survey(old(cache).known(), credits(*p));
            &&& final(cache).known() == s.known
            &&& match s.ask {
                Some(mbid) => r is Ask && r->Ask_0@ == mbid,
                None => r is Release && is_renamed(r->Release_0, *p, s.known),
            }
        }),
{
    if pref == NameScriptPreference::Native {
        return Resolved::Release(p.release.clone());
    }
    let ghost start = cache.known();
    let ghost cs = credits(*p);
    let ghost head = release_credit(*p);
    let n: usize = p.release.tracks.len();
    if let Some(mbid) = &p.release_artist_mbid {
        let ghost c = head[0];
        let ask = visit(cache, p.release.artist.as_str(), mbid.as_str(), Ghost(c));
        proof {
            assert(head.drop_last() =~= Seq::<Credit>::empty());
            assert(survey(start, head.drop_last()) == Survey { known: start, ask: None });
            assert(survey(start, head) == look_at(start, c));
        }
        if let Some(m) = ask {
            proof {
                assert(cs.take(head.len() as int) =~= head);
                lemma_survey_stops(start, head, cs);
            }
            return Resolved::Ask(m);
        }
    }
    assert(head + track_credits(*p, 0) =~= head);
    let mut k: usize = 0;
    while k < n
        invariant
            k <= n,
            n == p.release.tracks@.len(),
            head == release_credit(*p),
            cs == credits(*p),
            start == old(cache).known(),
            pref == NameScriptPreference::Latin,
            ({
                let s = survey(start, head + track_credits(*p, k as int));
                s.ask is None && s.known == cache.known()
            }),
        decreases n - k,
    {
        let ghost so_far = head + track_credits(*p, k as int);
        let ghost next = head + track_credits(*p, k + 1);
        let mbid = nth_text(&p.track_artist_mbids, k);
        match (&p.release.tracks[k].artist, &mbid) {
            (Some(name), Some(mbid)) => {
                let ghost c = track_credit(*p, k as int)->0;
                let ask = visit(cache, name.as_str(), mbid.as_str(), Ghost(c));
                proof {
                    assert(next =~= so_far.push(c));
                    assert(next.drop_last() =~= so_far);
                }
                if let Some(m) = ask {
                    proof {
                        lemma_track_credits_prefix(*p, k + 1, n as int);
                        lemma_survey_stops(start, next, cs);
                    }
                    return Resolved::Ask(m);
                }
            },
            _ => {
                assert(next =~= so_far);
            },
        }
        k += 1;
    }
    let ghost known = cache.known();
    let title = pick_preferred_name(
        p.release.title.as_str(),
        None,
        p.title_aliases.as_slice(),
        NameScriptPreference::Latin,
        AliasKind::Release,
    );
    let artist = match &p.release_artist_mbid {
        Some(mbid) => cache.pick(
            p.release.artist.as_str(),
            &p.release_artist_sort,
            mbid.as_str(),
        ),
        None => p.release.artist.clone(),
    };
    let mut tracks: Vec<MbTrack> = Vec::new();
    let mut k: usize = 0;
    while k < n
        invariant
            k <= n,
            n == p.release.tracks@.len(),
            known == cache.known(),
            tracks@.len() == k,
            forall|j: int| 0 <= j < k ==> is_renamed_track(#[trigger] tracks@[j], *p, j, known),
        decreases n - k,
    {
        let old_track = &p.release.tracks[k];
        let mbid = nth_text(&p.track_artist_mbids, k);
        let sort = nth_text(&p.track_artist_sorts, k);
        let artist = match (&old_track.artist, &mbid) {
            (Some(name), Some(mbid)) => Some(cache.pick(name.as_str(), &sort, mbid.as_str())),
            _ => copy_text(&old_track.artist),
        };
        tracks.push(
            MbTrack {
                disc: old_track.disc,
                position: old_track.position,
                title: old_track.title.clone(),
                artist,
                duration_ms: old_track.duration_ms,
                recording_id: old_track.recording_id.clone(),
            },
        );
        k += 1;
    }
    let old_release = &p.release;
    Resolved::Release(
        MbRelease {
            id: old_release.id.clone(),
            title,
            artist,
            year: old_release.year,
            country: copy_text(&old_release.country),
            label: copy_text(&old_release.label),
            status: copy_text(&old_release.status),
            track_count: old_release.track_count,
            medium_count: old_release.medium_count,
            tracks,
            api_score: old_release.api_score,
            release_group_id: copy_text(&old_release.release_group_id),
            group_min_year: old_release.group_min_year,
        },
    )
}

/// Once an artist must be looked up, further credits change nothing.
proof fn lemma_survey_stops(
    known: Seq<(Seq<char>, Seq<MbAlias>)>,
    part: Seq<Credit>,
    all: Seq<Credit>,
)
    requires
        survey(known, part).ask is Some,
        part.len() <= all.len(),
        all.take(part.len() as int) == part,
    ensures
        survey(known, all) == survey(known, part),
    decreases all.len(),
{
    if all.len() > part.len() {
        assert(all.drop_last().take(part.len() as int) =~= part);
        lemma_survey_stops(known, part, all.drop_last());
    } else {
        assert(all =~= part);
    }
}

/// The credits of fewer tracks stand first among the credits of more.
proof fn lemma_track_credits_prefix(p: ParsedFullRelease, n: int, m: int)
    requires
        0 <= n <= m,
    ensures
        track_credits(p, n).len() <= track_credits(p, m).len(),
        track_credits(p, m).take(track_credits(p, n).len() as int) == track_credits(p, n),
        (release_credit(p) + track_credits(p, m)).take(
            (release_credit(p) + track_credits(p, n)).len() as int,
        ) == release_credit(p) + track_credits(p, n),
    decreases m,
{
    let a = track_credits(p, n);
    let b = track_credits(p, m);
    if n < m {
        lemma_track_credits_prefix(p, n, m - 1);
        let c = track_credits(p, m - 1);
        assert(b.take(a.len() as int) =~= c.take(a.len() as int));
    } else {
        assert(b.take(a.len() as int) =~= a);
    }
    assert((release_credit(p) + b).take((release_credit(p) + a).len() as int)
        =~= release_credit(p) + a) by {
        assert(forall|i: int| 0 <= i < a.len() ==> b.take(a.len() as int)[i] == b[i]);
    }
}

proof fn lemma_cached_after_push(
    known: Seq<(Seq<char>, Seq<MbAlias>)>,
    entry: (Seq<char>, Seq<MbAlias>),
    mbid: Seq<char>,
)
    ensures
        cached(known, mbid) is Some ==> cached(known.push(entry), mbid) == cached(known, mbid),
        entry.0 == mbid ==> cached(known.push(entry), mbid) is Some,
    decreases known.len(),
{
    if known.len() == 0 {
        assert(known.push(entry)[0] == entry);
    } else {
        assert(known.push(entry).skip(1) =~= known.skip(1).push(entry));
        lemma_cached_after_push(known.skip(1), entry, mbid);
    }
}

/// What is known stays known, and only what is not known is asked for.
proof fn lemma_survey(known: Seq<(Seq<char>, Seq<MbAlias>)>, cs: Seq<Credit>, mbid: Seq<char>)
    ensures
        cached(known, mbid) is Some ==> cached(survey(known, cs).known, mbid) == cached(known, mbid),
        cached(known, mbid) is Some ==> survey(known, cs).ask != Some(mbid),
        survey(known, cs).ask is Some ==> exists|i: int|
            0 <= i < cs.len() && survey(known, cs).ask == Some((#[trigger] cs[i]).mbid)
                && !pure_latin(cs[i].name),
    decreases cs.len(),
{
    if cs.len() > 0 {
        let prev = cs.drop_last();
        lemma_survey(known, prev, mbid);
        let s = survey(known, prev);
        if s.ask is Some {
            let i = choose|i: int|
                0 <= i < prev.len() && s.ask == Some((#[trigger] prev[i]).mbid) && !pure_latin(
                    prev[i].name,
                );
            assert(cs[i] == prev[i]);
        } else {
            let c = cs.last();
            lemma_cached_after_push(s.known, (c.mbid, Seq::empty()), mbid);
            assert(cs[cs.len() - 1] == c);
        }
    }
}

/// An artist is looked up once: after its aliases came in, it is not asked
/// for again, whatever release asks.
pub proof fn law_artists_are_looked_up_once(
    known: Seq<(Seq<char>, Seq<MbAlias>)>,
    cs: Seq<Credit>,
    mbid: Seq<char>,
    aliases: Seq<MbAlias>,
    later: Seq<Credit>,
)
    requires
        survey(known, cs).ask == Some(mbid),
    ensures
        survey(survey(known, cs).known.push((mbid, aliases)), later).ask != Some(mbid),
{
    let k = survey(known, cs).known;
    lemma_cached_after_push(k, (mbid, aliases), mbid);
    lemma_survey(k.push((mbid, aliases)), later, mbid);
}

/// Only an artist with a credit in another script is looked up.
pub proof fn law_latin_credits_are_not_looked_up(
    known: Seq<(Seq<char>, Seq<MbAlias>)>,
    cs: Seq<Credit>,
)
    requires
        forall|i: int| 0 <= i < cs.len() ==> pure_latin((#[trigger] cs[i]).name),
    ensures
        survey(known, cs).ask is None,
{
    lemma_survey(known, cs, Seq::empty());
}

// ---------------------------------------------------------------------------
// Answers as they come

/// Whether an answer that cannot be read was reported.
pub open spec fn is_unreadable(e: KyokuError, label: Seq<char>, body: Seq<char>) -> bool {
    document(body) is Err && e is External && e->External_0@ == parse_message(
        label,
        document(body)->Err_0,
        body,
    )
}

fn read_document(label: &str, body: &str) -> (r: Result<Json, KyokuError>)
    ensures
        match r {
            Ok(j) => document(body@) == Ok::<Json, Seq<char>>(j),
            Err(e) => is_unreadable(e, label@, body@),
        },
{
    match read_json(body) {
        Ok(j) => Ok(j),
        Err(e) => Err(parse_error(label, e.as_str(), body)),
    }
}

/// The release that an answer describes.
pub fn read_release(body: &str) -> (r: Result<ParsedFullRelease, KyokuError>)
    ensures
        match r {
            Ok(p) => document(body@) is Ok && is_release(p, document(body@)->Ok_0),
            Err(e) => is_unreadable(e, "MB parse failed"@, body@),
        },
{
    match read_document("MB parse failed", body) {
        Ok(j) => Ok(parse_full_release(&j)),
        Err(e) => Err(e),
    }
}

/// The year of the first release of the group that an answer describes.
pub fn read_group_year(body: &str) -> (r: Result<Option<i32>, KyokuError>)
    ensures
        match r {
            Ok(y) => document(body@) is Ok && is_year(y, group_year(document(body@)->Ok_0)),
            Err(e) => is_unreadable(e, "MB release-group parse failed"@, body@),
        },
{
    match read_document("MB release-group parse failed", body) {
        Ok(j) => Ok(parse_group_year(&j)),
        Err(e) => Err(e),
    }
}

/// The releases of the group that an answer describes.
pub fn read_group_releases(body: &str, rg_id: &str, source: &MbRelease) -> (r: Result<
    Vec<MbRelease>,
    KyokuError,
>)
    ensures
        match r {
            Ok(ms) => document(body@) is Ok && are_alternates(
                ms@,
                document(body@)->Ok_0,
                rg_id@,
                *source,
            ),
            Err(e) => is_unreadable(e, "MB release-group releases parse failed"@, body@),
        },
{
    match read_document("MB release-group releases parse failed", body) {
        Ok(j) => Ok(parse_group_releases(&j, rg_id, source)),
        Err(e) => Err(e),
    }
}

/// The aliases of the artist that an answer describes.
pub fn read_aliases(body: &str) -> (r: Result<Vec<MbAlias>, KyokuError>)
    ensures
        match r {
            Ok(a) => document(body@) is Ok && alias_views(a@) == aliases_of(document(body@)->Ok_0),
            Err(e) => is_unreadable(e, "MB artist-aliases parse failed"@, body@),
        },
{
    match read_document("MB artist-aliases parse failed", body) {
        Ok(j) => Ok(parse_aliases(&j)),
        Err(e) => Err(e),
    }
}


// ---------------------------------------------------------------------------
// Laws of reading

/// A date begins with its year in four digits; what follows does not matter.
pub proof fn law_dates_begin_with_their_year(d: Seq<char>, more: Seq<char>)
    requires
        d.len() == 4,
        forall|i: int| 0 <= i < 4 ==> '0' <= #[trigger] d[i] <= '9',
    ensures
        date_year(d + more) == Some(
            (d[0] as int - '0' as int) * 1000 + (d[1] as int - '0' as int) * 100 + (d[2] as int
                - '0' as int) * 10 + (d[3] as int - '0' as int),
        ),
{
    assert((d + more).take(4) =~= d);
    assert(d[0] != '-' && d[0] != '+');
    assert(all_digits(d));
    let d3 = d.drop_last();
    let d2 = d3.drop_last();
    let d1 = d2.drop_last();
    assert(d1.drop_last() =~= Seq::<char>::empty());
    assert(digits_value(Seq::<char>::empty()) == 0);
    assert(d3.last() == d[2] && d2.last() == d[1] && d1.last() == d[0] && d.last() == d[3]);
    assert(digits_value(d1) == digits_value(d1.drop_last()) * 10 + crate::text::digit_value(d[0]));
    assert(digits_value(d2) == digits_value(d1) * 10 + crate::text::digit_value(d[1]));
    assert(digits_value(d3) == digits_value(d2) * 10 + crate::text::digit_value(d[2]));
    assert(digits_value(d) == digits_value(d3) * 10 + crate::text::digit_value(d[3]));
    assert(digits_value(d) <= 9999);
}

/// A date without four characters, or with other characters there, has no
/// year.
pub proof fn law_other_dates_have_no_year(d: Seq<char>, i: int)
    requires
        d.len() < 4 || (1 <= i < 4 && !('0' <= d[i] <= '9')),
    ensures
        date_year(d) is None,
{
    if d.len() >= 4 {
        let y = d.take(4);
        assert(y[i] == d[i]);
        if y[0] == '-' || y[0] == '+' {
            assert(y.skip(1)[i - 1] == d[i]);
        }
        assert(!crate::text::is_digit(d[i]));
    }
}

/// Of several dates the earliest is taken: none of the others comes before
/// it. There is one wherever a date is given.
pub proof fn law_the_earliest_date_is_taken(dates: Seq<Option<Seq<char>>>)
    ensures
        match earliest(dates) {
            Some(e) => dates.contains(Some(e)) && forall|k: int|
                0 <= k < dates.len() && (#[trigger] dates[k]) is Some ==> text_order(
                    e,
                    dates[k]->0,
                ) <= 0,
            None => forall|k: int| 0 <= k < dates.len() ==> (#[trigger] dates[k]) is None,
        },
    decreases dates.len(),
{
    if dates.len() > 0 {
        let d = dates.drop_last();
        law_the_earliest_date_is_taken(d);
        let prev = earliest(d);
        assert(dates[dates.len() - 1] == dates.last());
        if prev is Some {
            let x = d.index_of(prev);
            assert(dates[x] == prev);
        }
        if earliest(dates) is Some {
            let e = earliest(dates)->0;
            assert forall|k: int| 0 <= k < dates.len() && (#[trigger] dates[k]) is Some implies
                text_order(e, dates[k]->0) <= 0 by {
                lemma_text_order_flip(e, e);
                if k < d.len() {
                    assert(d[k] == dates[k]);
                    if prev is Some && e != prev->0 {
                        lemma_text_order_transitive(e, prev->0, dates[k]->0);
                    }
                } else if prev is Some {
                    lemma_text_order_flip(e, dates[k]->0);
                }
            }
        } else {
            assert forall|k: int| 0 <= k < dates.len() implies (#[trigger] dates[k]) is None by {
                if k < d.len() {
                    assert(d[k] == dates[k]);
                }
            }
        }
    }
}

/// The date of a release is its own where it has one; else the first date of
/// its group; else the earliest of its events.
pub proof fn law_own_dates_come_first(v: Json)
    ensures
        text_at(v, "date"@) is Some ==> release_date(v) == text_at(v, "date"@),
        text_at(v, "date"@) is None && text_within(v, "release-group"@, "first-release-date"@) is Some
            ==> release_date(v) == text_within(v, "release-group"@, "first-release-date"@),
        text_at(v, "date"@) is None && text_within(
            v,
            "release-group"@,
            "first-release-date"@,
        ) is None ==> release_date(v) == first_event(v),
{
}

proof fn lemma_tracks_on(media: Seq<Json>, n: int, m: int, k: int) -> (at: int)
    requires
        0 <= m < n <= media.len(),
        0 <= k < medium_tracks(media[m]).len(),
    ensures
        0 <= at < tracks_on(media, n).len(),
        tracks_on(media, n)[at] == (Placed { disc: m + 1, track: medium_tracks(media[m])[k] }),
        at == tracks_on(media, m).len() + k,
    decreases n,
{
    let before = tracks_on(media, n - 1);
    let last = placed(n, medium_tracks(media[n - 1]));
    if m == n - 1 {
        assert(last[k] == (Placed { disc: n, track: medium_tracks(media[m])[k] }));
        assert((before + last)[before.len() + k] == last[k]);
        before.len() + k
    } else {
        let at = lemma_tracks_on(media, n - 1, m, k);
        assert((before + last)[at] == before[at]);
        at
    }
}

/// The tracks of a release are listed medium by medium, each with the number
/// of its medium counted from one: track `k` of medium `m` comes behind the
/// tracks of the media before it.
pub proof fn law_tracks_are_listed_medium_by_medium(media: Seq<Json>, m: int, k: int)
    requires
        0 <= m < media.len(),
        0 <= k < medium_tracks(media[m]).len(),
    ensures
        ({
            let r = tracks_on(media, media.len() as int);
            let at = tracks_on(media, m).len() + k;
            &&& 0 <= at < r.len()
            &&& r[at].disc == m + 1
            &&& r[at].track == medium_tracks(media[m])[k]
        }),
        tracks_on(media, 0).len() == 0,
        tracks_on(media, m + 1).len() == tracks_on(media, m).len() + medium_tracks(media[m]).len(),
{
    let at = lemma_tracks_on(media, media.len() as int, m, k);
}

proof fn lemma_listed_add(a: Seq<Json>, b: Seq<Json>)
    ensures
        listed(a + b) == listed(a) + listed(b),
        aliases_in(a + b) == aliases_in(a) + aliases_in(b),
    decreases b.len(),
{
    if b.len() == 0 {
        assert(a + b =~= a);
        assert(listed(a) + listed(b) =~= listed(a));
        assert(aliases_in(a) + aliases_in(b) =~= aliases_in(a));
    } else {
        let d = b.drop_last();
        lemma_listed_add(a, d);
        assert((a + b).drop_last() =~= a + d);
        assert((a + b).last() == b.last());
        assert(listed(a) + listed(d).push(b.last()) =~= (listed(a) + listed(d)).push(b.last()));
        if alias_of(b.last()) is Some {
            let x = alias_of(b.last())->0;
            assert(aliases_in(a) + aliases_in(d).push(x) =~= (aliases_in(a) + aliases_in(d)).push(
                x,
            ));
        }
    }
}

/// The releases of a group are listed in the order in which they came, but
/// for pseudo-releases and those without an identifier; so are the aliases
/// that can be read.
pub proof fn law_pseudo_releases_are_not_listed(a: Seq<Json>, b: Seq<Json>, r: Json)
    ensures
        listed(a + b) == listed(a) + listed(b),
        aliases_in(a + b) == aliases_in(a) + aliases_in(b),
        text_at(r, "id"@) is None ==> listed(seq![r]).len() == 0,
        text_at(r, "status"@) == Some("Pseudo-Release"@) ==> listed(seq![r]).len() == 0,
        text_at(r, "id"@) is Some && text_at(r, "status"@) is None ==> listed(seq![r]) == seq![r],
        text_at(r, "id"@) is Some && text_at(r, "status"@) is Some && text_at(r, "status"@)->0.len()
            != 14 ==> listed(seq![r]) == seq![r],
        alias_of(r) is Some ==> aliases_in(seq![r]) == seq![alias_of(r)->0],
        alias_of(r) is None ==> aliases_in(seq![r]).len() == 0,
{
    lemma_listed_add(a, b);
    let one = seq![r];
    assert(one.drop_last() =~= Seq::<Json>::empty());
    assert(one.last() == r);
    assert(listed(one.drop_last()) =~= Seq::<Json>::empty());
    assert(Seq::<Json>::empty().push(r) =~= one);
    assert(aliases_in(one.drop_last()) =~= Seq::<AliasView>::empty());
    assert("Pseudo-Release"@.len() == 14) by {
        reveal_strlit("Pseudo-Release");
    }
    if alias_of(r) is Some {
        assert(aliases_in(one) =~= seq![alias_of(r)->0]);
    }
    if text_at(r, "status"@) is Some {
        let s = text_at(r, "status"@)->0;
        assert(crate::text::ascii_lowered(s).len() == s.len());
        assert(crate::text::ascii_lowered("Pseudo-Release"@).len() == 14);
    }
}

/// An alternative that is neither known nor came before is added, behind
/// those that came before it.
pub proof fn law_new_alternatives_are_added(
    rs: Seq<MbRelease>,
    before: Seq<MbRelease>,
    a: MbRelease,
)
    ensures
        !ids(rs).contains(a.id@) && !ids(before).contains(a.id@) ==> additions(
            rs,
            before.push(a),
        ) == additions(rs, before).push(a),
        ids(rs).contains(a.id@) ==> additions(rs, before.push(a)) == additions(rs, before),
        forall|x: Seq<char>| #[trigger]
            ids(additions(rs, before)).contains(x) ==> ids(before).contains(x),
    decreases before.len(),
{
    assert(before.push(a).drop_last() =~= before);
    assert(before.push(a).last() == a);
    if before.len() > 0 {
        law_new_alternatives_are_added(rs, before.drop_last(), before.last());
    }
    assert forall|x: Seq<char>| #[trigger] ids(additions(rs, before)).contains(x) implies ids(
        before,
    ).contains(x) by {
        if before.len() > 0 {
            let now = additions(rs, before);
            let prev = additions(rs, before.drop_last());
            let k = ids(now).index_of(x);
            assert(ids(before)[before.len() - 1] == before.last().id@);
            if k < prev.len() {
                assert(ids(prev)[k] == x);
                assert(ids(prev).contains(x));
                let y = ids(before.drop_last()).index_of(x);
                assert(ids(before)[y] == x);
            }
        }
    }
}

/// The releases whose alternatives are asked for are the pseudo-releases that
/// belong to a group, in their order.
pub proof fn law_pseudo_releases_are_sources(rs: Seq<MbRelease>, n: int, k: int)
    requires
        0 <= k < n <= rs.len(),
        n <= usize::MAX,
    ensures
        sources_below(rs, n).contains(k as usize) <==> rs[k].release_group_id is Some && rs[k].status is Some
            && crate::text::ascii_lowered(rs[k].status->0@) == crate::text::ascii_lowered(
            "Pseudo-Release"@,
        ),
        forall|i: int, j: int|
            0 <= i < j < sources_below(rs, n).len() ==> #[trigger] sources_below(rs, n)[i]
                < #[trigger] sources_below(rs, n)[j],
        forall|i: int|
            0 <= i < sources_below(rs, n).len() ==> #[trigger] sources_below(rs, n)[i] < n,
    decreases n,
{
    let r = sources_below(rs, n);
    let before = sources_below(rs, n - 1);
    if n > 1 {
        law_pseudo_releases_are_sources(rs, n - 1, if k < n - 1 { k } else { 0 });
    } else {
        assert(before =~= Seq::<usize>::empty());
    }
    if is_pseudo_source(rs[n - 1]) {
        assert(r[before.len() as int] == (n - 1) as usize);
    }
    if k < n - 1 {
        if before.contains(k as usize) {
            assert(r[before.index_of(k as usize)] == k as usize);
        }
        if r.contains(k as usize) {
            let i = r.index_of(k as usize);
            assert(before[i] == k as usize);
        }
    } else if r.contains(k as usize) {
        let i = r.index_of(k as usize);
        if i < before.len() {
            assert(before[i] < n - 1);
        }
    }
}


/// Messages show a text up to a length: a shorter one as it is, without the
/// space around it, a longer one from its beginning with an ellipsis.
pub proof fn law_long_texts_are_shown_from_their_beginning(s: Seq<char>, max: int)
    requires
        0 <= max,
        s.len() > 0,
        !crate::text::is_space(s[0]),
        !crate::text::is_space(s.last()),
    ensures
        s.len() <= max ==> clipped(s, max) == s,
        s.len() > max ==> clipped(s, max).len() == max + 1 && clipped(s, max).take(max) == s.take(
            max,
        ) && clipped(s, max).last() == '…',
{
    let none = Seq::<char>::empty();
    assert(none + s + none =~= s);
    crate::text::law_trimming_takes_the_space_around(none, s, none);
    if s.len() > max {
        assert(s.take(max).push('…').take(max) =~= s.take(max));
    }
}

} // verus!
