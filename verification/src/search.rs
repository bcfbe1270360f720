//! Searching the music database: how names are cleaned, which queries are
//! tried in which order, and the addresses that they are sent to.
use vstd::prelude::*;

use crate::text::{
    chars_of, decimal, digit_char, is_ascii_alnum, is_space, number_text, opt_chars, same, text_of, trim,
    trim_back, trimmed, views, whitespace,
};

verus! {

// ---------------------------------------------------------------------------
// Cleaning names

/// Punctuation that names are written with and without at their end.
pub open spec fn is_end_mark(c: char) -> bool {
    c == '.' || c == '!' || c == '?' || c == ',' || c == ';' || c == ':' || c == '。' || c == '！'
        || c == '？' || c == '、'
}

fn end_mark(c: char) -> (r: bool)
    ensures
        r == is_end_mark(c),
{
    c == '.' || c == '!' || c == '?' || c == ',' || c == ';' || c == ':' || c == '。' || c == '！'
        || c == '？' || c == '、'
}

/// A name without punctuation at its end, and without whitespace around it.
pub open spec fn clean_name(s: Seq<char>) -> Seq<char> {
    trimmed(trim_back(s, |c: char| is_end_mark(c)))
}

/// Strips punctuation from the end of an artist's name. What stands before
/// and between stays, for it can be part of the name.
pub fn strip_trailing_punct(s: &str) -> (r: String)
    ensures
        r@ == clean_name(s@),
{
    let v = chars_of(s);
    let ghost p = |c: char| is_end_mark(c);
    let mut b: usize = v.len();
    assert(s@.take(s@.len() as int) =~= s@);
    while b > 0 && end_mark(v[b - 1])
        invariant
            b <= v@.len(),
            v@ == s@,
            p == (|c: char| is_end_mark(c)),
            trim_back(s@, p) == trim_back(s@.take(b as int), p),
        decreases b,
    {
        assert(s@.take(b as int).drop_last() =~= s@.take(b - 1));
        b -= 1;
    }
    let kept = text_of(&v, 0, b);
    assert(kept@ =~= s@.take(b as int));
    trim(kept.as_str())
}

/// The last position of a character.
pub open spec fn last_index(s: Seq<char>, c: char) -> Option<int>
    decreases s.len(),
{
    if s.len() == 0 {
        None
    } else if s.last() == c {
        Some(s.len() - 1)
    } else {
        last_index(s.drop_last(), c)
    }
}

/// What stands before the last opening parenthesis, without whitespace at
/// the end.
pub open spec fn before_paren(s: Seq<char>) -> Option<Seq<char>> {
    match last_index(s, '(') {
        Some(i) => Some(trim_back(s.take(i), |c: char| is_space(c))),
        None => None,
    }
}

/// A title without the parenthesised qualifier at its end, unless nothing
/// would be left of it.
pub open spec fn clean_title(s: Seq<char>) -> Seq<char> {
    match before_paren(s) {
        Some(b) => if b.len() > 0 { b } else { s },
        None => s,
    }
}

/// Strips a qualifier such as "(Deluxe Edition)" from the end of an album
/// title. The database keeps those apart from the title.
pub fn strip_parenthesized_suffix(s: &str) -> (r: String)
    ensures
        r@ == clean_title(s@),
{
    let v = chars_of(s);
    let mut i: usize = v.len();
    assert(s@.take(s@.len() as int) =~= s@);
    while i > 0 && v[i - 1] != '('
        invariant
            i <= v@.len(),
            v@ == s@,
            last_index(s@, '(') == last_index(s@.take(i as int), '('),
        decreases i,
    {
        assert(s@.take(i as int).drop_last() =~= s@.take(i - 1));
        i -= 1;
    }
    if i == 0 {
        return s.to_owned();
    }
    let ghost head = s@.take(i - 1);
    let ghost p = |c: char| is_space(c);
    let mut b: usize = i - 1;
    while b > 0 && whitespace(v[b - 1])
        invariant
            b <= v@.len(),
            v@ == s@,
            p == (|c: char| is_space(c)),
            trim_back(head, p) == trim_back(s@.take(b as int), p),
        decreases b,
    {
        assert(s@.take(b as int).drop_last() =~= s@.take(b - 1));
        b -= 1;
    }
    if b == 0 {
        return s.to_owned();
    }
    let kept = text_of(&v, 0, b);
    assert(kept@ =~= s@.take(b as int));
    kept
}

// ---------------------------------------------------------------------------
// Queries

/// The characters that mean something to the query language.
pub open spec fn is_special(c: char) -> bool {
    c == '+' || c == '-' || c == '&' || c == '|' || c == '!' || c == '(' || c == ')' || c == '{' || c
        == '}' || c == '[' || c == ']' || c == '^' || c == '"' || c == '~' || c == '*' || c == '?'
        || c == ':' || c == '\\' || c == '/'
}

fn special(c: char) -> (r: bool)
    ensures
        r == is_special(c),
{
    c == '+' || c == '-' || c == '&' || c == '|' || c == '!' || c == '(' || c == ')' || c == '{' || c
        == '}' || c == '[' || c == ']' || c == '^' || c == '"' || c == '~' || c == '*' || c == '?'
        || c == ':' || c == '\\' || c == '/'
}

/// A text with a backslash before each character that means something to
/// the query language.
pub open spec fn escaped(s: Seq<char>) -> Seq<char>
    decreases s.len(),
{
    if s.len() == 0 {
        Seq::empty()
    } else if is_special(s.last()) {
        escaped(s.drop_last()).push('\\').push(s.last())
    } else {
        escaped(s.drop_last()).push(s.last())
    }
}

/// Escapes a text for the query language.
pub fn escape_lucene(s: &str) -> (r: String)
    ensures
        r@ == escaped(s@),
{
    let v = chars_of(s);
    let mut out = String::new();
    let mut i: usize = 0;
    while i < v.len()
        invariant
            i <= v@.len(),
            v@ == s@,
            out@ == escaped(s@.take(i as int)),
        decreases v@.len() - i,
    {
        if special(v[i]) {
            out.push('\\');
        }
        out.push(v[i]);
        i += 1;
        assert(s@.take(i as int).drop_last() =~= s@.take(i - 1));
    }
    assert(s@.take(s@.len() as int) =~= s@);
    out
}

/// The text that an escaped text stands for: a backslash gives way to the
/// character after it.
pub open spec fn unescaped(s: Seq<char>) -> Seq<char>
    decreases s.len(),
{
    if s.len() == 0 {
        Seq::empty()
    } else if s[0] == '\\' && s.len() > 1 {
        seq![s[1]] + unescaped(s.skip(2))
    } else {
        seq![s[0]] + unescaped(s.skip(1))
    }
}

proof fn lemma_unescape_step(a: Seq<char>, b: Seq<char>)
    ensures
        unescaped(escaped(a) + b) == a + unescaped(b),
    decreases a.len(),
{
    if a.len() == 0 {
        assert(escaped(a) + b =~= b);
        assert(a + unescaped(b) =~= unescaped(b));
    } else {
        let c = a.last();
        let head = a.drop_last();
        if is_special(c) {
            let tail = seq!['\\', c] + b;
            assert(escaped(a) + b =~= escaped(head) + tail);
            lemma_unescape_step(head, tail);
            assert(tail.skip(2) =~= b);
            assert(tail[0] == '\\' && tail[1] == c);
            assert(unescaped(tail) == seq![c] + unescaped(b));
        } else {
            let tail = seq![c] + b;
            assert(escaped(a) + b =~= escaped(head) + tail);
            lemma_unescape_step(head, tail);
            assert(tail.skip(1) =~= b);
            assert(tail[0] == c);
            assert(unescaped(tail) == seq![c] + unescaped(b));
        }
        assert(a =~= head.push(c));
        assert(head + (seq![c] + unescaped(b)) =~= a + unescaped(b));
    }
}

/// An escaped text stands for the text that was escaped.
pub proof fn law_escaped_text_stands_for_itself(s: Seq<char>)
    ensures
        unescaped(escaped(s)) == s,
{
    lemma_unescape_step(s, Seq::empty());
    assert(escaped(s) + Seq::<char>::empty() =~= escaped(s));
    assert(s + unescaped(Seq::<char>::empty()) =~= s);
}

/// A query with a further condition.
pub open spec fn and_filter(query: Seq<char>, filter: Option<Seq<char>>) -> Seq<char> {
    match filter {
        Some(f) => query + " AND "@ + f,
        None => query,
    }
}

/// The query for an artist, with or without an album. There is none for an
/// artist without a name.
pub open spec fn artist_query(
    artist: Seq<char>,
    album: Option<Seq<char>>,
    filter: Option<Seq<char>>,
) -> Option<Seq<char>> {
    if trimmed(artist).len() == 0 {
        None
    } else {
        Some(
            and_filter(
                match album {
                    Some(a) => "artist:("@ + escaped(artist) + ") AND release:("@ + escaped(a)
                        + ")"@,
                    None => "artist:("@ + escaped(artist) + ")"@,
                },
                filter,
            ),
        )
    }
}

/// The query for an album by anyone.
pub open spec fn album_query(album: Seq<char>, filter: Option<Seq<char>>) -> Seq<char> {
    and_filter("release:("@ + escaped(album) + ")"@, filter)
}

/// The clauses for artists by their identifiers, any of which will do.
pub open spec fn any_of(arids: Seq<Seq<char>>) -> Seq<char>
    decreases arids.len(),
{
    if arids.len() == 0 {
        Seq::empty()
    } else if arids.len() == 1 {
        "arid:"@ + arids[0]
    } else {
        any_of(arids.drop_last()) + " OR "@ + ("arid:"@ + arids.last())
    }
}

/// The query for artists by their identifiers, with or without an album.
pub open spec fn arid_query(
    arids: Seq<Seq<char>>,
    album: Option<Seq<char>>,
    filter: Option<Seq<char>>,
) -> Seq<char> {
    let clause = if arids.len() == 1 { any_of(arids) } else { "("@ + any_of(arids) + ")"@ };
    and_filter(
        match album {
            Some(a) => clause + " AND release:("@ + escaped(a) + ")"@,
            None => clause,
        },
        filter,
    )
}

fn is_blank(s: &str) -> (r: bool)
    ensures
        r == (trimmed(s@).len() == 0),
{
    let t = trim(s);
    let v = chars_of(t.as_str());
    v.len() == 0
}

fn add_filter(query: &mut String, filter: Option<&str>)
    ensures
        final(query)@ == and_filter(old(query)@, opt_chars(filter)),
{
    if let Some(f) = filter {
        query.append(" AND ");
        query.append(f);
    }
}

/// Builds the query for an artist, with or without an album.
pub fn build_artist_search_query(artist: &str, album: Option<&str>, type_filter: Option<&str>) -> (r:
    Option<String>)
    ensures
        crate::text::opt_view(r) == artist_query(artist@, opt_chars(album), opt_chars(type_filter)),
{
    if is_blank(artist) {
        return None;
    }
    let mut q = "artist:(".to_owned();
    q.append(escape_lucene(artist).as_str());
    if let Some(a) = album {
        q.append(") AND release:(");
        q.append(escape_lucene(a).as_str());
    }
    q.append(")");
    add_filter(&mut q, type_filter);
    Some(q)
}

/// Builds the query for an album by anyone.
pub fn build_album_query(album: &str, type_filter: Option<&str>) -> (r: String)
    ensures
        r@ == album_query(album@, opt_chars(type_filter)),
{
    let mut q = "release:(".to_owned();
    q.append(escape_lucene(album).as_str());
    q.append(")");
    add_filter(&mut q, type_filter);
    q
}

fn join_arids(arids: &Vec<String>) -> (r: String)
    ensures
        r@ == any_of(views(arids@)),
{
    let mut out = String::new();
    let n: usize = arids.len();
    let ghost vs = views(arids@);
    let mut i: usize = 0;
    while i < n
        invariant
            i <= n,
            n == arids@.len(),
            vs == views(arids@),
            out@ == any_of(vs.take(i as int)),
        decreases n - i,
    {
        let ghost before = out@;
        assert(vs.take(i + 1).drop_last() =~= vs.take(i as int));
        assert(vs.take(i + 1).last() == arids@[i as int]@);
        if i > 0 {
            out.append(" OR ");
        }
        out.append("arid:");
        out.append(arids[i].as_str());
        proof {
            if i == 0 {
                assert(out@ =~= "arid:"@ + arids@[0]@);
            } else {
                assert(out@ =~= before + " OR "@ + ("arid:"@ + arids@[i as int]@));
            }
        }
        i += 1;
    }
    assert(vs.take(n as int) =~= vs);
    out
}

/// Builds the query for artists by their identifiers.
pub fn build_arid_query(arids: &Vec<String>, album: Option<&str>, type_filter: Option<&str>) -> (r:
    String)
    ensures
        r@ == arid_query(views(arids@), opt_chars(album), opt_chars(type_filter)),
{
    let clauses = join_arids(arids);
    let mut q = String::new();
    assert(views(arids@).len() == arids@.len());
    if arids.len() == 1 {
        q.append(clauses.as_str());
        assert(q@ =~= clauses@);
    } else {
        q.append("(");
        q.append(clauses.as_str());
        q.append(")");
        assert(q@ =~= "("@ + clauses@ + ")"@);
    }
    if let Some(a) = album {
        q.append(" AND release:(");
        q.append(escape_lucene(a).as_str());
        q.append(")");
    }
    add_filter(&mut q, type_filter);
    q
}

// ---------------------------------------------------------------------------
// The order of searches

/// The condition on the kind of release: four tracks or more cannot be a
/// single, though a single of the same name often ranks first.
pub open spec fn kind_filter(track_count: int) -> Option<Seq<char>> {
    if track_count >= 4 { Some("primarytype:(Album OR EP)"@) } else { None }
}

/// The first search: artist and album, or the album alone where the artist
/// has no name left after cleaning.
pub open spec fn first_query(artist: Seq<char>, album: Seq<char>, track_count: int) -> Seq<char> {
    let a = clean_name(artist);
    let t = clean_title(album);
    match artist_query(a, Some(t), kind_filter(track_count)) {
        Some(q) => q,
        None => album_query(t, kind_filter(track_count)),
    }
}

/// A query, where it is to be tried.
pub open spec fn query_if(tried: bool, query: Option<Seq<char>>) -> Seq<Seq<char>> {
    if tried && query is Some { seq![query->0] } else { Seq::empty() }
}

/// The searches that follow one without results, given the artists that the
/// name may mean. They get looser: the artists by identifier; then both again
/// without the condition on the kind; then the artist without the album; then
/// the one artist, if there is just one; then the name as it was given.
pub open spec fn later_queries(
    artist: Seq<char>,
    album: Seq<char>,
    track_count: int,
    arids: Seq<Seq<char>>,
) -> Seq<Seq<char>> {
    let a = clean_name(artist);
    let t = clean_title(album);
    let filter = kind_filter(track_count);
    let named = trimmed(a).len() > 0;
    query_if(arids.len() > 0, Some(arid_query(arids, Some(t), filter)))
        + query_if(filter is Some && named, artist_query(a, Some(t), None))
        + query_if(filter is Some && !named, Some(album_query(t, None)))
        + query_if(filter is Some && arids.len() > 0, Some(arid_query(arids, Some(t), None)))
        + query_if(named, artist_query(a, None, None))
        + query_if(arids.len() == 1, Some(arid_query(arids, None, None)))
        + query_if(a != artist, artist_query(artist, Some(t), None))
}

fn type_filter(track_count: u32) -> (r: Option<&'static str>)
    ensures
        opt_chars(r) == kind_filter(track_count as int),
{
    if track_count >= 4 {
        Some("primarytype:(Album OR EP)")
    } else {
        None
    }
}

/// The first search for an album.
pub fn first_search(artist: &str, album: &str, track_count: u32) -> (r: String)
    ensures
        r@ == first_query(artist@, album@, track_count as int),
{
    let a = strip_trailing_punct(artist);
    let t = strip_parenthesized_suffix(album);
    let filter = type_filter(track_count);
    match build_artist_search_query(a.as_str(), Some(t.as_str()), filter) {
        Some(q) => q,
        None => build_album_query(t.as_str(), filter),
    }
}

/// The artist search that resolves a name, by any of its aliases, to
/// identifiers. There is none for an artist without a name.
pub fn artist_search(artist: &str) -> (r: Option<String>)
    ensures
        crate::text::opt_view(r) == (if trimmed(clean_name(artist@)).len() == 0 {
            None
        } else {
            Some(escaped(clean_name(artist@)))
        }),
{
    let a = strip_trailing_punct(artist);
    if is_blank(a.as_str()) {
        None
    } else {
        Some(escape_lucene(a.as_str()))
    }
}

fn add_query(list: &mut Vec<String>, query: Option<String>, Ghost(tried): Ghost<bool>)
    requires
        !tried ==> query is None,
    ensures
        views(final(list)@) == views(old(list)@) + query_if(tried, crate::text::opt_view(query)),
{
    match query {
        Some(q) => {
            let ghost before = list@;
            list.push(q);
            assert(views(list@) =~= views(before) + seq![q@]);
        },
        None => {
            assert(views(list@) + Seq::<Seq<char>>::empty() =~= views(list@));
        },
    }
}

/// The searches that follow a first one without results.
pub fn later_searches(artist: &str, album: &str, track_count: u32, arids: &Vec<String>) -> (r: Vec<
    String,
>)
    ensures
        views(r@) == later_queries(artist@, album@, track_count as int, views(arids@)),
{
    let a = strip_trailing_punct(artist);
    let t = strip_parenthesized_suffix(album);
    let filter = type_filter(track_count);
    let named = !is_blank(a.as_str());
    let some_ids = arids.len() > 0;
    let filtered = filter.is_some();
    let ghost ids = views(arids@);
    assert(ids.len() == arids@.len());
    let ghost f = kind_filter(track_count as int);
    let mut out: Vec<String> = Vec::new();
    assert(views(out@) =~= Seq::<Seq<char>>::empty());
    let q1 = if some_ids {
        Some(build_arid_query(arids, Some(t.as_str()), filter))
    } else {
        None
    };
    let ghost tried1 = ids.len() > 0;
    add_query(&mut out, q1, Ghost(tried1));
    let ghost s1 = query_if(ids.len() > 0, Some(arid_query(ids, Some(t@), f)));
    assert(views(out@) =~= s1);
    let q2 = if filtered && named {
        build_artist_search_query(a.as_str(), Some(t.as_str()), None)
    } else {
        None
    };
    let ghost tried2 = f is Some && named;
    add_query(&mut out, q2, Ghost(tried2));
    let ghost s2 = query_if(f is Some && named, artist_query(a@, Some(t@), None));
    assert(views(out@) == s1 + s2);
    let q3 = if filtered && !named {
        Some(build_album_query(t.as_str(), None))
    } else {
        None
    };
    let ghost tried3 = f is Some && !named;
    add_query(&mut out, q3, Ghost(tried3));
    let ghost s3 = query_if(f is Some && !named, Some(album_query(t@, None)));
    assert(views(out@) == s1 + s2 + s3);
    let q4 = if filtered && some_ids {
        Some(build_arid_query(arids, Some(t.as_str()), None))
    } else {
        None
    };
    let ghost tried4 = f is Some && ids.len() > 0;
    add_query(&mut out, q4, Ghost(tried4));
    let ghost s4 = query_if(f is Some && ids.len() > 0, Some(arid_query(ids, Some(t@), None)));
    assert(views(out@) == s1 + s2 + s3 + s4);
    let q5 = if named {
        build_artist_search_query(a.as_str(), None, None)
    } else {
        None
    };
    let ghost tried5 = named;
    add_query(&mut out, q5, Ghost(tried5));
    let ghost s5 = query_if(named, artist_query(a@, None, None));
    assert(views(out@) == s1 + s2 + s3 + s4 + s5);
    let q6 = if arids.len() == 1 {
        Some(build_arid_query(arids, None, None))
    } else {
        None
    };
    let ghost tried6 = ids.len() == 1;
    add_query(&mut out, q6, Ghost(tried6));
    let ghost s6 = query_if(ids.len() == 1, Some(arid_query(ids, None, None)));
    assert(views(out@) == s1 + s2 + s3 + s4 + s5 + s6);
    let changed = !same(a.as_str(), artist);
    let q7 = if changed {
        build_artist_search_query(artist, Some(t.as_str()), None)
    } else {
        None
    };
    let ghost tried7 = a@ != artist@;
    add_query(&mut out, q7, Ghost(tried7));
    out
}

/// The hits of an artist search.
#[derive(Debug)]
pub struct ArtistHit {
    pub id: String,
    pub score: Option<u8>,
}

/// Whether a hit is strong enough to be a candidate. Romanised aliases rank
/// below exact names, so the bar is not set at the top.
pub open spec fn is_strong(h: ArtistHit) -> bool {
    h.score is Some && h.score->0 >= 80
}

/// The identifiers of the strong hits, each once, in order.
pub open spec fn candidates(hits: Seq<ArtistHit>) -> Seq<Seq<char>>
    decreases hits.len(),
{
    if hits.len() == 0 {
        Seq::empty()
    } else {
        let prev = candidates(hits.drop_last());
        if is_strong(hits.last()) && !prev.contains(hits.last().id@) {
            prev.push(hits.last().id@)
        } else {
            prev
        }
    }
}

/// The artists that a name may mean.
pub fn artist_candidates(hits: &Vec<ArtistHit>) -> (r: Vec<String>)
    ensures
        views(r@) == candidates(hits@),
{
    let mut out: Vec<String> = Vec::new();
    let mut i: usize = 0;
    assert(views(out@) =~= candidates(hits@.take(0)));
    while i < hits.len()
        invariant
            i <= hits@.len(),
            views(out@) == candidates(hits@.take(i as int)),
        decreases hits@.len() - i,
    {
        let ghost before = out@;
        assert(hits@.take(i + 1).drop_last() =~= hits@.take(i as int));
        let strong = match hits[i].score {
            Some(s) => s >= 80,
            None => false,
        };
        if strong && !crate::text::holds(&out, hits[i].id.as_str()) {
            out.push(hits[i].id.clone());
            assert(views(out@) =~= views(before).push(hits@[i as int].id@));
        }
        i += 1;
    }
    assert(hits@.take(hits@.len() as int) =~= hits@);
    out
}

// ---------------------------------------------------------------------------
// Addresses

/// Characters that stand for themselves in a query's address.
pub open spec fn is_plain(c: char) -> bool {
    is_ascii_alnum(c) || c == '-' || c == '.' || c == '_' || c == '~' || c == '(' || c == ')' || c
        == '!' || c == '*' || c == '\''
}

/// An upper case hexadecimal digit.
pub open spec fn hex_char(d: nat) -> char {
    if d < 10 {
        digit_char(d)
    } else if d == 10 {
        'A'
    } else if d == 11 {
        'B'
    } else if d == 12 {
        'C'
    } else if d == 13 {
        'D'
    } else if d == 14 {
        'E'
    } else {
        'F'
    }
}

/// Bytes, each as a percent sign and two hexadecimal digits.
pub open spec fn percent(bytes: Seq<u8>) -> Seq<char>
    decreases bytes.len(),
{
    if bytes.len() == 0 {
        Seq::empty()
    } else {
        percent(bytes.drop_last()) + seq![
            '%',
            hex_char((bytes.last() / 16) as nat),
            hex_char((bytes.last() % 16) as nat),
        ]
    }
}

/// One character of a query's address.
pub open spec fn encoded_char(c: char) -> Seq<char> {
    if is_plain(c) { seq![c] } else { percent(vstd::utf8::encode_utf8(seq![c])) }
}

/// A text in a query's address.
pub open spec fn encoded(s: Seq<char>) -> Seq<char>
    decreases s.len(),
{
    if s.len() == 0 {
        Seq::empty()
    } else {
        encoded(s.drop_last()) + encoded_char(s.last())
    }
}

fn plain(c: char) -> (r: bool)
    ensures
        r == is_plain(c),
{
    ('a' <= c && c <= 'z') || ('A' <= c && c <= 'Z') || ('0' <= c && c <= '9') || c == '-' || c == '.'
        || c == '_' || c == '~' || c == '(' || c == ')' || c == '!' || c == '*' || c == '\''
}

fn hex(d: u8) -> (c: char)
    requires
        d < 16,
    ensures
        c == hex_char(d as nat),
{
    if d < 10 {
        crate::text::digit(d as u64)
    } else if d == 10 {
        'A'
    } else if d == 11 {
        'B'
    } else if d == 12 {
        'C'
    } else if d == 13 {
        'D'
    } else if d == 14 {
        'E'
    } else {
        'F'
    }
}

fn percent_encode(c: char) -> (r: String)
    ensures
        r@ == percent(vstd::utf8::encode_utf8(seq![c])),
{
    let mut one = String::new();
    one.push(c);
    assert(one@ =~= seq![c]);
    let text = one.as_str();
    let bytes = text.as_bytes();
    let mut out = String::new();
    let mut i: usize = 0;
    while i < bytes.len()
        invariant
            i <= bytes@.len(),
            out@ == percent(bytes@.take(i as int)),
        decreases bytes@.len() - i,
    {
        let ghost before = out@;
        let b: u8 = bytes[i];
        out.push('%');
        out.push(hex(b / 16));
        out.push(hex(b % 16));
        i += 1;
        proof {
            assert(bytes@.take(i as int).drop_last() =~= bytes@.take(i - 1));
            assert(out@ =~= before + seq![
                '%',
                hex_char((b / 16) as nat),
                hex_char((b % 16) as nat),
            ]);
        }
    }
    assert(bytes@.take(bytes@.len() as int) =~= bytes@);
    out
}

/// Encodes a text for a query's address.
pub fn urlencoding(s: &str) -> (r: String)
    ensures
        r@ == encoded(s@),
{
    let v = chars_of(s);
    let mut out = String::new();
    let mut i: usize = 0;
    while i < v.len()
        invariant
            i <= v@.len(),
            v@ == s@,
            out@ == encoded(s@.take(i as int)),
        decreases v@.len() - i,
    {
        let ghost before = out@;
        let c = v[i];
        if plain(c) {
            out.push(c);
            assert(out@ =~= before + seq![c]);
        } else {
            let p = percent_encode(c);
            out.append(p.as_str());
        }
        i += 1;
        assert(s@.take(i as int).drop_last() =~= s@.take(i - 1));
    }
    assert(s@.take(s@.len() as int) =~= s@);
    out
}

proof fn lemma_percent_is_plain(bytes: Seq<u8>)
    ensures
        forall|i: int|
            0 <= i < percent(bytes).len() ==> is_ascii_alnum(#[trigger] percent(bytes)[i])
                || percent(bytes)[i] == '%',
    decreases bytes.len(),
{
    if bytes.len() > 0 {
        let prev = percent(bytes.drop_last());
        let hi = (bytes.last() / 16) as nat;
        let lo = (bytes.last() % 16) as nat;
        lemma_percent_is_plain(bytes.drop_last());
        assert forall|i: int| 0 <= i < percent(bytes).len() implies is_ascii_alnum(
            #[trigger] percent(bytes)[i],
        ) || percent(bytes)[i] == '%' by {
            if i < prev.len() {
                assert(percent(bytes)[i] == prev[i]);
            } else {
                assert(percent(bytes)[i] == seq!['%', hex_char(hi), hex_char(lo)][i - prev.len()]);
            }
        }
    }
}

/// An encoded text holds plain characters and percent signs only, so it ends
/// no part of an address before its time.
pub proof fn law_encoded_text_is_plain(s: Seq<char>)
    ensures
        forall|i: int|
            0 <= i < encoded(s).len() ==> is_plain(#[trigger] encoded(s)[i]) || encoded(s)[i] == '%',
    decreases s.len(),
{
    if s.len() > 0 {
        let prev = encoded(s.drop_last());
        let one = encoded_char(s.last());
        law_encoded_text_is_plain(s.drop_last());
        lemma_percent_is_plain(vstd::utf8::encode_utf8(seq![s.last()]));
        assert forall|i: int| 0 <= i < encoded(s).len() implies is_plain(#[trigger] encoded(s)[i])
            || encoded(s)[i] == '%' by {
            if i < prev.len() {
                assert(encoded(s)[i] == prev[i]);
            } else {
                assert(encoded(s)[i] == one[i - prev.len()]);
            }
        }
    }
}

/// The address of a search.
pub open spec fn search_url(what: Seq<char>, query: Seq<char>, limit: nat) -> Seq<char> {
    "https://musicbrainz.org/ws/2/"@ + what + "/?query="@ + encoded(query) + "&fmt=json&limit="@
        + decimal(limit)
}

fn build_search_url(what: &str, query: &str, limit: u32) -> (r: String)
    ensures
        r@ == search_url(what@, query@, limit as nat),
{
    let mut s = "https://musicbrainz.org/ws/2/".to_owned();
    s.append(what);
    s.append("/?query=");
    s.append(urlencoding(query).as_str());
    s.append("&fmt=json&limit=");
    s.append(number_text(limit as u64).as_str());
    s
}

/// The address of a release search.
pub fn release_search_url(query: &str, limit: u32) -> (r: String)
    ensures
        r@ == search_url("release"@, query@, limit as nat),
{
    build_search_url("release", query, limit)
}

/// The address of an artist search.
pub fn artist_search_url(query: &str, limit: u32) -> (r: String)
    ensures
        r@ == search_url("artist"@, query@, limit as nat),
{
    build_search_url("artist", query, limit)
}

/// The address of an entity.
pub open spec fn entity_url(what: Seq<char>, id: Seq<char>, rest: Seq<char>) -> Seq<char> {
    "https://musicbrainz.org/ws/2/"@ + what + "/"@ + id + rest
}

fn build_entity_url(what: &str, id: &str, rest: &str) -> (r: String)
    ensures
        r@ == entity_url(what@, id@, rest@),
{
    let mut s = "https://musicbrainz.org/ws/2/".to_owned();
    s.append(what);
    s.append("/");
    s.append(id);
    s.append(rest);
    s
}

/// The address of a release with its tracks.
pub fn release_url(mbid: &str) -> (r: String)
    ensures
        r@ == entity_url(
            "release"@,
            mbid@,
            "?inc=recordings+artists+labels+aliases+release-groups&fmt=json"@,
        ),
{
    build_entity_url(
        "release",
        mbid,
        "?inc=recordings+artists+labels+aliases+release-groups&fmt=json",
    )
}

/// The address of a release group.
pub fn group_url(rg_id: &str) -> (r: String)
    ensures
        r@ == entity_url("release-group"@, rg_id@, "?fmt=json"@),
{
    build_entity_url("release-group", rg_id, "?fmt=json")
}

/// The address of a release group with its releases.
pub fn group_releases_url(rg_id: &str) -> (r: String)
    ensures
        r@ == entity_url("release-group"@, rg_id@, "?inc=releases&fmt=json"@),
{
    build_entity_url("release-group", rg_id, "?inc=releases&fmt=json")
}

/// The address of an artist with its aliases.
pub fn artist_url(mbid: &str) -> (r: String)
    ensures
        r@ == entity_url("artist"@, mbid@, "?inc=aliases&fmt=json"@),
{
    build_entity_url("artist", mbid, "?inc=aliases&fmt=json")
}


// ---------------------------------------------------------------------------
// Laws of queries

/// Punctuation at the end of a name does not matter, and a name that ends in
/// neither punctuation nor whitespace, and begins with no whitespace, stays.
pub proof fn law_punctuation_at_the_end_does_not_matter(s: Seq<char>, mark: char)
    ensures
        mark == '.' || mark == '!' || mark == '?' || mark == ',' || mark == ';' || mark == ':'
            ==> clean_name(s.push(mark)) == clean_name(s),
        s.len() > 0 && is_ascii_alnum(s.last()) && is_ascii_alnum(s[0]) ==> clean_name(s) == s,
{
    let p = |c: char| is_end_mark(c);
    assert(s.push(mark).drop_last() =~= s);
    if s.len() > 0 && is_ascii_alnum(s.last()) {
        assert(!is_end_mark(s.last()));
        assert(trim_back(s, p) == s);
        assert(!is_space(s.last()));
        assert(is_ascii_alnum(s[0]) ==> !is_space(s[0]));
    }
}

proof fn lemma_last_index(s: Seq<char>, c: char, i: int)
    requires
        0 <= i < s.len(),
        s[i] == c,
        forall|k: int| i < k < s.len() ==> s[k] != c,
    ensures
        last_index(s, c) == Some(i),
    decreases s.len(),
{
    if i < s.len() - 1 {
        lemma_last_index(s.drop_last(), c, i);
    }
}

proof fn lemma_no_index(s: Seq<char>, c: char)
    requires
        !s.contains(c),
    ensures
        last_index(s, c) is None,
    decreases s.len(),
{
    if s.len() > 0 {
        assert(s[s.len() - 1] != c);
        assert(!s.drop_last().contains(c)) by {
            if s.drop_last().contains(c) {
                assert(s[s.drop_last().index_of(c)] == c);
            }
        }
        lemma_no_index(s.drop_last(), c);
    }
}

/// What stands in brackets at the end of a title is left out; a title without
/// brackets stays.
pub proof fn law_brackets_at_the_end_are_left_out(title: Seq<char>, note: Seq<char>)
    requires
        title.len() > 0,
        !is_space(title.last()),
        !note.contains('('),
    ensures
        clean_title(title + seq![' ', '('] + note) == title,
        clean_title(title + seq!['('] + note) == title,
        !title.contains('(') ==> clean_title(title) == title,
{
    let p = |c: char| is_space(c);
    let a = title + seq![' ', '('] + note;
    let n = title.len() as int;
    assert(a[n + 1] == '(');
    assert forall|k: int| n + 1 < k < a.len() implies a[k] != '(' by {
        assert(a[k] == note[k - n - 2]);
        assert(note.contains(note[k - n - 2]));
    }
    lemma_last_index(a, '(', n + 1);
    assert(a.take(n + 1) =~= title.push(' '));
    assert(title.push(' ').drop_last() =~= title);
    assert(p(' '));
    assert(trim_back(title, p) == title);
    assert(trim_back(title.push(' '), p) == title);
    let b = title + seq!['('] + note;
    assert(b[n] == '(');
    assert forall|k: int| n < k < b.len() implies b[k] != '(' by {
        assert(b[k] == note[k - n - 1]);
        assert(note.contains(note[k - n - 1]));
    }
    lemma_last_index(b, '(', n);
    assert(b.take(n) =~= title);
    if !title.contains('(') {
        lemma_no_index(title, '(');
    }
}

/// How an artist, and an album of theirs, are asked for.
pub open spec fn asks_for(artist: Seq<char>, album: Seq<char>) -> Seq<char> {
    "artist:("@ + escaped(artist) + ") AND release:("@ + escaped(album) + ")"@
}

/// The first query asks for the artist and the album, both cleaned; with four
/// tracks or more, only for albums and EPs. Without an artist it asks for the
/// album alone.
pub proof fn law_artist_and_album_are_asked_for_first(
    artist: Seq<char>,
    album: Seq<char>,
    track_count: int,
)
    ensures
        ({
            let a = clean_name(artist);
            let t = clean_title(album);
            let q = first_query(artist, album, track_count);
            let base = if trimmed(a).len() > 0 {
                asks_for(a, t)
            } else {
                "release:("@ + escaped(t) + ")"@
            };
            &&& track_count < 4 ==> q == base
            &&& track_count >= 4 ==> q == base + " AND "@ + "primarytype:(Album OR EP)"@
        }),
{
}

/// Where the first query gives nothing and no artists were found by name, a
/// query without the kind comes next, and the artist alone after it; with
/// three tracks or fewer the artist alone. A name that was cleaned is tried
/// as it was written last.
pub proof fn law_later_queries_ask_for_less(
    artist: Seq<char>,
    album: Seq<char>,
    track_count: int,
)
    requires
        trimmed(clean_name(artist)).len() > 0,
    ensures
        ({
            let a = clean_name(artist);
            let t = clean_title(album);
            let r = later_queries(artist, album, track_count, Seq::empty());
            let alone = "artist:("@ + escaped(a) + ")"@;
            &&& a == artist && track_count >= 4 ==> r == seq![asks_for(a, t), alone]
            &&& a == artist && track_count < 4 ==> r == seq![alone]
            &&& a != artist && trimmed(artist).len() > 0 && track_count >= 4 ==> r == seq![
                asks_for(a, t),
                alone,
                asks_for(artist, t),
            ]
            &&& a != artist && trimmed(artist).len() > 0 && track_count < 4 ==> r == seq![
                alone,
                asks_for(artist, t),
            ]
        }),
{
    let a = clean_name(artist);
    let t = clean_title(album);
    let alone = "artist:("@ + escaped(a) + ")"@;
    let none = Seq::<Seq<char>>::empty();
    let r = later_queries(artist, album, track_count, none);
    assert(artist_query(a, None, None) == Some(alone));
    assert(artist_query(a, Some(t), None) == Some(asks_for(a, t)));
    let raw = asks_for(artist, t);
    if a == artist && track_count >= 4 {
        assert(r =~= seq![asks_for(a, t), alone]);
    } else if a == artist {
        assert(r =~= seq![alone]);
    } else if trimmed(artist).len() > 0 {
        assert(artist_query(artist, Some(t), None) == Some(raw));
        if track_count >= 4 {
            assert(r =~= seq![asks_for(a, t), alone, raw]);
        } else {
            assert(r =~= seq![alone, raw]);
        }
    }
}

/// Artists found by name are asked for before anything else, by identifier
/// and album.
pub proof fn law_found_artists_are_asked_for_next(
    artist: Seq<char>,
    album: Seq<char>,
    id: Seq<char>,
    other: Seq<char>,
)
    ensures
        ({
            let t = clean_title(album);
            let one = later_queries(artist, album, 0, seq![id]);
            let two = later_queries(artist, album, 0, seq![id, other]);
            &&& one.len() > 0 && one[0] == "arid:"@ + id + " AND release:("@ + escaped(t) + ")"@
            &&& two.len() > 0 && two[0] == "("@ + ("arid:"@ + id + " OR "@ + ("arid:"@ + other))
                + ")"@ + " AND release:("@ + escaped(t) + ")"@
        }),
{
    let two = seq![id, other];
    assert(two.drop_last() =~= seq![id]);
    assert(two.last() == other);
    assert(any_of(seq![id]) == "arid:"@ + id);
    assert(any_of(two) == "arid:"@ + id + " OR "@ + ("arid:"@ + other));
}

/// Artists count as found with a score of eighty or more: each once, in the
/// order in which they came.
pub proof fn law_strong_hits_are_candidates(hits: Seq<ArtistHit>, h: ArtistHit)
    ensures
        candidates(hits).no_duplicates(),
        forall|k: int|
            0 <= k < hits.len() && (#[trigger] hits[k]).score is Some && hits[k].score->0 >= 80
                ==> candidates(hits).contains(hits[k].id@),
        h.score is None || h.score->0 < 80 ==> candidates(hits.push(h)) == candidates(hits),
        h.score is Some && h.score->0 >= 80 && !candidates(hits).contains(h.id@) ==> candidates(
            hits.push(h),
        ) == candidates(hits).push(h.id@),
    decreases hits.len(),
{
    assert(hits.push(h).drop_last() =~= hits);
    assert(hits.push(h).last() == h);
    if hits.len() > 0 {
        let d = hits.drop_last();
        law_strong_hits_are_candidates(d, hits.last());
        let prev = candidates(d);
        let r = candidates(hits);
        assert forall|k: int|
            0 <= k < hits.len() && (#[trigger] hits[k]).score is Some && hits[k].score->0
                >= 80 implies r.contains(hits[k].id@) by {
            if k < d.len() {
                assert(d[k] == hits[k]);
                assert(r[prev.index_of(hits[k].id@)] == hits[k].id@);
            } else if r.len() > prev.len() {
                assert(r[prev.len() as int] == hits[k].id@);
            }
        }
    }
}

proof fn lemma_encoded_add(a: Seq<char>, b: Seq<char>)
    ensures
        encoded(a + b) == encoded(a) + encoded(b),
        escaped(a + b) == escaped(a) + escaped(b),
    decreases b.len(),
{
    if b.len() == 0 {
        assert(a + b =~= a);
        assert(encoded(a) + encoded(b) =~= encoded(a));
        assert(escaped(a) + escaped(b) =~= escaped(a));
    } else {
        let d = b.drop_last();
        lemma_encoded_add(a, d);
        assert((a + b).drop_last() =~= a + d);
        assert((a + b).last() == b.last());
        assert(encoded(a) + encoded(d) + encoded_char(b.last()) =~= encoded(a) + (encoded(d)
            + encoded_char(b.last())));
        assert(escaped(a) + escaped(d).push('\\').push(b.last()) =~= (escaped(a) + escaped(
            d,
        )).push('\\').push(b.last()));
        assert(escaped(a) + escaped(d).push(b.last()) =~= (escaped(a) + escaped(d)).push(
            b.last(),
        ));
    }
}

/// Addresses are encoded character by character, in order: letters, digits
/// and a few marks stand for themselves, a space becomes `%20`, an ampersand
/// `%26`, a colon `%3A`.
pub proof fn law_addresses_are_encoded_character_by_character(
    a: Seq<char>,
    b: Seq<char>,
    c: char,
)
    ensures
        encoded(a + b) == encoded(a) + encoded(b),
        is_ascii_alnum(c) || c == '-' || c == '.' || c == '_' || c == '~' ==> encoded(seq![c])
            == seq![c],
        c as u32 <= 0x7f && !is_plain(c) ==> encoded(seq![c]) == seq![
            '%',
            hex_char((c as u32 / 16) as nat),
            hex_char((c as u32 % 16) as nat),
        ],
        hex_char(2) == '2' && hex_char(0) == '0' && hex_char(9) == '9' && hex_char(10) == 'A'
            && hex_char(15) == 'F',
{
    lemma_encoded_add(a, b);
    let one = seq![c];
    assert(one.drop_last() =~= Seq::<char>::empty());
    assert(encoded(one.drop_last()) =~= Seq::<char>::empty());
    assert(encoded(one) =~= encoded_char(c));
    if c as u32 <= 0x7f && !is_plain(c) {
        let bytes = vstd::utf8::encode_utf8(one);
        lemma_ascii_byte(c);
        assert(bytes.drop_last() =~= Seq::<u8>::empty());
        assert(percent(bytes.drop_last()) =~= Seq::<char>::empty());
        assert(bytes.last() == c as u8);
        assert(percent(bytes) =~= seq![
            '%',
            hex_char((c as u32 / 16) as nat),
            hex_char((c as u32 % 16) as nat),
        ]);
    }
}

proof fn lemma_ascii_byte(c: char)
    requires
        c as u32 <= 0x7f,
    ensures
        vstd::utf8::encode_utf8(seq![c]) == seq![c as u8],
{
    assert(seq![c].drop_first() =~= Seq::<char>::empty());
    assert(vstd::utf8::encode_utf8(Seq::<char>::empty()) =~= Seq::<u8>::empty());
    let u = c as u32;
    assert((u & 0x7F) as u8 == u as u8) by (bit_vector)
        requires
            u <= 0x7f,
    ;
    assert(vstd::utf8::leading_byte_width_1(u) == u as u8);
    assert(vstd::utf8::encode_scalar(u) =~= seq![u as u8]);
    assert(vstd::utf8::encode_utf8(seq![c]) =~= seq![c as u8]);
}

/// Text in queries is escaped character by character, in order: a backslash
/// stands in front of the marks that mean something in a query, and nowhere
/// else.
pub proof fn law_queries_are_escaped_character_by_character(
    a: Seq<char>,
    b: Seq<char>,
    c: char,
)
    ensures
        escaped(a + b) == escaped(a) + escaped(b),
        is_ascii_alnum(c) || is_space(c) ==> escaped(seq![c]) == seq![c],
        c == '(' || c == ')' || c == ':' || c == '"' || c == '\\' || c == '/' || c == '!' || c == '?'
            || c == '*' || c == '+' || c == '-' || c == '&' || c == '|' || c == '[' || c == ']' || c
            == '{' || c == '}' || c == '^' || c == '~' ==> escaped(seq![c]) == seq!['\\', c],
{
    lemma_encoded_add(a, b);
    let one = seq![c];
    let none = Seq::<char>::empty();
    assert(one.drop_last() =~= none);
    assert(one.last() == c);
    assert(escaped(one.drop_last()) =~= none);
    assert(none.push(c) =~= one);
    assert(none.push('\\').push(c) =~= seq!['\\', c]);
}

} // verus!
