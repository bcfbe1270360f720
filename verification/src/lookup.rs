//! Looking a release up: which search comes next, and how its results are
//! completed. Requests are made elsewhere; here stands what is asked for and
//! what an answer leads to.
use vstd::prelude::*;

use crate::musicbrainz::{
    additions, first_releases, is_pseudo_source, pseudo_sources, sources_below, with_alternates,
};
use crate::releases::MbRelease;
use crate::search::{
    artist_candidates, artist_search, candidates, clean_name, escaped, first_query, first_search,
    later_queries, later_searches, ArtistHit,
};
use crate::text::{opt_view, trimmed, views};

verus! {

// ---------------------------------------------------------------------------
// Searching

/// How far a search for releases has come.
#[derive(Debug, Clone, Copy, PartialEq, Eq, Structural)]
pub enum SearchStage {
    /// The first search, by artist and album.
    First,
    /// The artists that the name may mean.
    Artists,
    /// One of the searches after the first.
    Later(usize),
    Over,
}

/// What a search asks for next.
#[derive(Debug)]
pub enum SearchAsk {
    /// The releases of a query.
    Releases(String),
    /// The artists of a query.
    Artists(String),
    Nothing,
}

/// What a search is after, and how far it has come.
pub struct Searching {
    pub artist: Seq<char>,
    pub album: Seq<char>,
    pub track_count: u32,
    /// The searches after the first, once they are known.
    pub later: Seq<Seq<char>>,
    pub stage: SearchStage,
}

/// A search for the releases of an album. It goes through ever looser
/// queries until one finds something.
#[derive(Debug)]
pub struct ReleaseSearch {
    artist: String,
    album: String,
    track_count: u32,
    later: Vec<String>,
    stage: SearchStage,
}

/// Whether anything is left of the artist's name to search for.
pub open spec fn has_name(s: Searching) -> bool {
    trimmed(clean_name(s.artist)).len() > 0
}

/// The stage of the later search `i`, if there are that many.
pub open spec fn later_stage(later: Seq<Seq<char>>, i: int) -> SearchStage {
    if 0 <= i < later.len() { SearchStage::Later(i as usize) } else { SearchStage::Over }
}

/// A search whose later queries are known and begin.
pub open spec fn begin_later(s: Searching, ids: Seq<Seq<char>>) -> Searching {
    let later = later_queries(s.artist, s.album, s.track_count as int, ids);
    Searching { later, stage: later_stage(later, 0), ..s }
}

/// What follows the results of a query for releases.
pub open spec fn after_releases(s: Searching, found: bool) -> Searching {
    match s.stage {
        SearchStage::First => if found {
            Searching { stage: SearchStage::Over, ..s }
        } else if has_name(s) {
            Searching { stage: SearchStage::Artists, ..s }
        } else {
            begin_later(s, Seq::empty())
        },
        SearchStage::Later(i) => if found {
            Searching { stage: SearchStage::Over, ..s }
        } else {
            Searching { stage: later_stage(s.later, i + 1), ..s }
        },
        _ => s,
    }
}

/// What follows the results of a query for artists.
pub open spec fn after_artists(s: Searching, hits: Seq<ArtistHit>) -> Searching {
    if s.stage == SearchStage::Artists { begin_later(s, candidates(hits)) } else { s }
}

/// Whether the stage is one that the search can be at.
pub open spec fn stands(s: Searching) -> bool {
    &&& s.stage is Later ==> s.stage->Later_0 < s.later.len()
    &&& s.stage == SearchStage::Artists ==> has_name(s)
    &&& s.later.len() <= usize::MAX
}

/// How many requests a search still makes at most.
pub open spec fn requests_left(s: Searching) -> nat {
    match s.stage {
        SearchStage::First => 9,
        SearchStage::Artists => 8,
        SearchStage::Later(i) => if i < s.later.len() { (s.later.len() - i) as nat } else { 0 },
        SearchStage::Over => 0,
    }
}

impl View for ReleaseSearch {
    type V = Searching;

    closed spec fn view(&self) -> Searching {
        Searching {
            artist: self.artist@,
            album: self.album@,
            track_count: self.track_count,
            later: views(self.later@),
            stage: self.stage,
        }
    }
}

fn stage_of(later: &Vec<String>, i: usize) -> (r: SearchStage)
    ensures
        r == later_stage(views(later@), i as int),
{
    if i < later.len() {
        SearchStage::Later(i)
    } else {
        SearchStage::Over
    }
}

impl ReleaseSearch {
    /// Begins the search for an album of `track_count` tracks.
    pub fn new(artist: &str, album: &str, track_count: u32) -> (r: Self)
        ensures
            r@.artist == artist@,
            r@.album == album@,
            r@.track_count == track_count,
            r@.later.len() == 0,
            r@.stage == SearchStage::First,
            stands(r@),
    {
        ReleaseSearch {
            artist: artist.to_owned(),
            album: album.to_owned(),
            track_count,
            later: Vec::new(),
            stage: SearchStage::First,
        }
    }

    /// What is asked for next.
    pub fn ask(&self) -> (r: SearchAsk)
        requires
            stands(self@),
        ensures
            match self@.stage {
                SearchStage::First => r is Releases && r->Releases_0@ == first_query(
                    self@.artist,
                    self@.album,
                    self@.track_count as int,
                ),
                SearchStage::Artists => r is Artists && r->Artists_0@ == escaped(
                    clean_name(self@.artist),
                ),
                SearchStage::Later(i) => r is Releases && r->Releases_0@ == self@.later[i as int],
                SearchStage::Over => r is Nothing,
            },
    {
        match self.stage {
            SearchStage::First => SearchAsk::Releases(
                first_search(self.artist.as_str(), self.album.as_str(), self.track_count),
            ),
            SearchStage::Artists => match artist_search(self.artist.as_str()) {
                Some(q) => SearchAsk::Artists(q),
                None => SearchAsk::Nothing,
            },
            SearchStage::Later(i) => SearchAsk::Releases(self.later[i].clone()),
            SearchStage::Over => SearchAsk::Nothing,
        }
    }

    fn begin(&mut self, ids: &Vec<String>)
        ensures
            final(self)@ == begin_later(old(self)@, views(ids@)),
            stands(final(self)@),
    {
        self.later = later_searches(
            self.artist.as_str(),
            self.album.as_str(),
            self.track_count,
            ids,
        );
        self.stage = stage_of(&self.later, 0);
        assert(self@ =~= begin_later(old(self)@, views(ids@)));
        assert(self.later@.len() == views(self.later@).len());
    }

    /// Takes the results of a query for releases: whether there were any.
    pub fn releases(&mut self, found: bool)
        requires
            stands(old(self)@),
        ensures
            final(self)@ == after_releases(old(self)@, found),
            stands(final(self)@),
    {
        match self.stage {
            SearchStage::First => {
                if found {
                    self.stage = SearchStage::Over;
                } else if artist_search(self.artist.as_str()).is_some() {
                    self.stage = SearchStage::Artists;
                } else {
                    let none: Vec<String> = Vec::new();
                    assert(views(none@) =~= Seq::<Seq<char>>::empty());
                    self.begin(&none);
                }
            },
            SearchStage::Later(i) => {
                self.stage = if found {
                    SearchStage::Over
                } else {
                    stage_of(&self.later, i + 1)
                };
            },
            _ => {},
        }
        assert(self@ =~= after_releases(old(self)@, found));
    }

    /// Takes the results of a query for artists.
    pub fn artists(&mut self, hits: &Vec<ArtistHit>)
        requires
            stands(old(self)@),
        ensures
            final(self)@ == after_artists(old(self)@, hits@),
            stands(final(self)@),
    {
        if let SearchStage::Artists = self.stage {
            let ids = artist_candidates(hits);
            self.begin(&ids);
        }
    }
}

/// A search makes at most nine requests: every answer leaves fewer to make.
pub proof fn law_searches_come_to_an_end(s: Searching, found: bool, hits: Seq<ArtistHit>)
    requires
        stands(s),
    ensures
        s.stage == SearchStage::First || s.stage is Later ==> requests_left(
            after_releases(s, found),
        ) < requests_left(s),
        s.stage == SearchStage::Artists ==> requests_left(after_artists(s, hits)) < requests_left(
            s,
        ),
{
    assert forall|ids: Seq<Seq<char>>|
        #[trigger] later_queries(s.artist, s.album, s.track_count as int, ids).len() <= 7 by {}
}

/// The first query that finds something ends the search.
pub proof fn law_a_hit_ends_the_search(s: Searching)
    ensures
        s.stage == SearchStage::First || s.stage is Later ==> after_releases(s, true).stage
            == SearchStage::Over,
{
}

// ---------------------------------------------------------------------------
// Completing

/// How far the completion of results has come.
#[derive(Debug, Clone, Copy, PartialEq, Eq, Structural)]
pub enum CompletionStage {
    /// Looking up the alternatives of a pseudo-release.
    Alternates(usize),
    /// Looking up the year of a release.
    Year(usize),
    Complete,
}

/// What a completion asks for next.
#[derive(Debug)]
pub enum CompletionAsk {
    /// The releases of a release's group.
    Alternates { group: String, source: MbRelease },
    /// The first year of a release group.
    Year { group: String },
    Nothing,
}

/// Results, and what is known to complete them.
pub struct Completing {
    pub releases: Seq<MbRelease>,
    /// The positions of the pseudo-releases.
    pub sources: Seq<usize>,
    pub alternates: Seq<MbRelease>,
    pub stage: CompletionStage,
}

/// The results of a search while they are completed: pseudo-releases bring
/// in the proper releases of their group, and years that are missing are
/// taken from the release group.
#[derive(Debug)]
pub struct Completion {
    releases: Vec<MbRelease>,
    sources: Vec<usize>,
    alternates: Vec<MbRelease>,
    stage: CompletionStage,
}

/// Whether the year of a release can be looked up and has to be.
pub open spec fn lacks_year(r: MbRelease) -> bool {
    r.year is None && r.release_group_id is Some
}

/// The first release at or after `i` whose year is looked up.
pub open spec fn year_stage(rs: Seq<MbRelease>, i: int) -> CompletionStage
    decreases rs.len() - i,
{
    if i < 0 || i >= rs.len() {
        CompletionStage::Complete
    } else if lacks_year(rs[i]) {
        CompletionStage::Year(i as usize)
    } else {
        year_stage(rs, i + 1)
    }
}

/// The stage of the pseudo-release `k`, or the years where there are no more
/// of them: alternatives then stand before the results.
pub open spec fn alternates_from(c: Completing, k: int) -> Completing {
    if 0 <= k < c.sources.len() {
        Completing { stage: CompletionStage::Alternates(k as usize), ..c }
    } else {
        let all = additions(c.releases, c.alternates) + c.releases;
        Completing {
            releases: all,
            sources: Seq::empty(),
            alternates: Seq::empty(),
            stage: year_stage(all, 0),
        }
    }
}

/// Results before anything is known to complete them.
pub open spec fn uncompleted(rs: Seq<MbRelease>) -> Completing {
    alternates_from(
        Completing {
            releases: rs,
            sources: sources_below(rs, rs.len() as int),
            alternates: Seq::empty(),
            stage: CompletionStage::Complete,
        },
        0,
    )
}

/// What follows the alternatives of a pseudo-release.
pub open spec fn after_alternates(c: Completing, found: Seq<MbRelease>) -> Completing {
    match c.stage {
        CompletionStage::Alternates(k) => alternates_from(
            Completing { alternates: c.alternates + found, ..c },
            k + 1,
        ),
        _ => c,
    }
}

/// What follows the year of a release group.
pub open spec fn after_year(c: Completing, year: Option<i32>) -> Completing {
    match c.stage {
        CompletionStage::Year(i) => {
            let rs = if year is Some {
                c.releases.update(i as int, MbRelease { year, ..c.releases[i as int] })
            } else {
                c.releases
            };
            Completing { releases: rs, stage: year_stage(rs, i + 1), ..c }
        },
        _ => c,
    }
}

/// What a search hands back: the completed results, `limit` at most.
pub open spec fn results(c: Completing, limit: int) -> Seq<MbRelease> {
    if c.releases.len() <= limit { c.releases } else { c.releases.take(limit) }
}

/// Whether the stage is one that the completion can be at.
pub open spec fn completes(c: Completing) -> bool {
    &&& c.releases.len() <= usize::MAX
    &&& c.sources.len() <= usize::MAX
    &&& forall|k: int|
        0 <= k < c.sources.len() ==> #[trigger] c.sources[k] < c.releases.len() && is_pseudo_source(
            c.releases[c.sources[k] as int],
        )
    &&& match c.stage {
        CompletionStage::Alternates(k) => k < c.sources.len(),
        CompletionStage::Year(i) => i < c.releases.len() && lacks_year(c.releases[i as int]),
        CompletionStage::Complete => true,
    }
}

impl View for Completion {
    type V = Completing;

    closed spec fn view(&self) -> Completing {
        Completing {
            releases: self.releases@,
            sources: self.sources@,
            alternates: self.alternates@,
            stage: self.stage,
        }
    }
}

fn next_year(rs: &Vec<MbRelease>, from: usize) -> (r: CompletionStage)
    requires
        from <= rs@.len(),
    ensures
        r == year_stage(rs@, from as int),
        r is Year ==> r->Year_0 < rs@.len() && lacks_year(rs@[r->Year_0 as int]),
        !(r is Alternates),
{
    let n: usize = rs.len();
    let mut i: usize = from;
    while i < n
        invariant
            from <= i <= n,
            n == rs@.len(),
            year_stage(rs@, from as int) == year_stage(rs@, i as int),
        decreases n - i,
    {
        if rs[i].year.is_none() && rs[i].release_group_id.is_some() {
            return CompletionStage::Year(i);
        }
        i += 1;
    }
    CompletionStage::Complete
}

impl Completion {
    /// Begins to complete the results of a search.
    pub fn new(releases: Vec<MbRelease>) -> (r: Self)
        ensures
            r@ == uncompleted(releases@),
            completes(r@),
    {
        let sources = pseudo_sources(&releases);
        let mut c = Completion {
            releases,
            sources,
            alternates: Vec::new(),
            stage: CompletionStage::Complete,
        };
        assert(c@.alternates =~= Seq::<MbRelease>::empty());
        assert(c.releases@.len() == c.releases.len());
        assert(c.sources@.len() == c.sources.len());
        c.go_on(0);
        c
    }

    fn go_on(&mut self, k: usize)
        requires
            old(self)@.releases.len() <= usize::MAX,
            old(self)@.sources.len() <= usize::MAX,
            forall|j: int|
                0 <= j < old(self)@.sources.len() ==> #[trigger] old(self)@.sources[j] < old(
                    self,
                )@.releases.len() && is_pseudo_source(
                    old(self)@.releases[old(self)@.sources[j] as int],
                ),
        ensures
            final(self)@ == alternates_from(old(self)@, k as int),
            completes(final(self)@),
    {
        if k < self.sources.len() {
            self.stage = CompletionStage::Alternates(k);
            return;
        }
        let mut rs: Vec<MbRelease> = Vec::new();
        rs.append(&mut self.releases);
        let mut alternates: Vec<MbRelease> = Vec::new();
        alternates.append(&mut self.alternates);
        assert(rs@ =~= old(self)@.releases);
        assert(alternates@ =~= old(self)@.alternates);
        self.releases = with_alternates(rs, alternates);
        self.sources = Vec::new();
        self.alternates = Vec::new();
        self.stage = next_year(&self.releases, 0);
        assert(self@ =~= alternates_from(old(self)@, k as int));
        assert(self.releases@.len() == self.releases.len());
    }

    /// What is asked for next.
    pub fn ask(&self) -> (r: CompletionAsk)
        requires
            completes(self@),
        ensures
            match self@.stage {
                CompletionStage::Alternates(k) => {
                    let from = self@.releases[self@.sources[k as int] as int];
                    r is Alternates && Some(r->Alternates_group@) == opt_view(from.release_group_id)
                        && crate::releases::same_release(r->source, from)
                },
                CompletionStage::Year(i) => r is Year && Some(r->Year_group@) == opt_view(
                    self@.releases[i as int].release_group_id,
                ),
                CompletionStage::Complete => r is Nothing,
            },
    {
        match self.stage {
            CompletionStage::Alternates(k) => {
                let from = &self.releases[self.sources[k]];
                match &from.release_group_id {
                    Some(g) => CompletionAsk::Alternates { group: g.clone(), source: from.clone() },
                    None => CompletionAsk::Nothing,
                }
            },
            CompletionStage::Year(i) => match &self.releases[i].release_group_id {
                Some(g) => CompletionAsk::Year { group: g.clone() },
                None => CompletionAsk::Nothing,
            },
            CompletionStage::Complete => CompletionAsk::Nothing,
        }
    }

    /// Takes the alternatives of a pseudo-release: none where the lookup
    /// failed.
    pub fn alternates(&mut self, found: Vec<MbRelease>)
        requires
            completes(old(self)@),
        ensures
            final(self)@ == after_alternates(old(self)@, found@),
            completes(final(self)@),
    {
        if let CompletionStage::Alternates(k) = self.stage {
            let mut found = found;
            self.alternates.append(&mut found);
            self.go_on(k + 1);
        }
    }

    /// Takes the year of a release group: none where the lookup failed.
    pub fn year(&mut self, year: Option<i32>)
        requires
            completes(old(self)@),
        ensures
            final(self)@ == after_year(old(self)@, year),
            completes(final(self)@),
    {
        if let CompletionStage::Year(i) = self.stage {
            if year.is_some() {
                self.releases[i].year = year;
            }
            self.stage = next_year(&self.releases, i + 1);
        }
    }

    /// The completed results, `limit` at most.
    pub fn into_releases(self, limit: u32) -> (r: Vec<MbRelease>)
        ensures
            r@ == results(self@, limit as int),
            r@.len() <= limit,
    {
        first_releases(self.releases, limit)
    }
}

/// A year that is looked up is put in where one was missing. No release is
/// lost, and nothing else changes.
pub proof fn law_only_missing_years_are_filled(c: Completing, year: Option<i32>)
    requires
        completes(c),
    ensures
        after_year(c, year).releases.len() == c.releases.len(),
        forall|i: int|
            0 <= i < c.releases.len() ==> {
                let r = #[trigger] after_year(c, year).releases[i];
                r == c.releases[i] || (lacks_year(c.releases[i]) && r == (MbRelease {
                    year,
                    ..c.releases[i]
                }))
            },
{
}

/// A search hands back no more than it was asked for, however many
/// alternatives its pseudo-releases bring in.
pub proof fn law_results_keep_to_the_limit(c: Completing, limit: int)
    requires
        0 <= limit,
    ensures
        results(c, limit).len() <= limit,
        results(c, limit).is_prefix_of(c.releases),
        c.releases.len() > 0 && limit > 0 ==> results(c, limit).len() > 0,
{
}

/// While results are completed, alternatives come before them, and they all
/// stay, in order.
pub proof fn law_results_stay_behind_their_alternatives(c: Completing, found: Seq<MbRelease>)
    requires
        completes(c),
        c.stage is Alternates,
    ensures
        ({
            let n = after_alternates(c, found);
            n.releases == c.releases || n.releases == additions(c.releases, c.alternates + found)
                + c.releases
        }),
{
}


/// A search that has found nothing yet looks the artist up by name, where it
/// has one, and then goes through the further queries one by one.
pub proof fn law_artists_are_looked_up_after_the_first_query(
    s: Searching,
    hits: Seq<ArtistHit>,
    i: usize,
)
    ensures
        s.stage is First && trimmed(clean_name(s.artist)).len() > 0 ==> after_releases(
            s,
            false,
        ).stage is Artists,
        s.stage is First && trimmed(clean_name(s.artist)).len() == 0 ==> !(after_releases(
            s,
            false,
        ).stage is Artists) && !(after_releases(s, false).stage is First),
        s.stage is Artists && after_artists(s, hits).later.len() > 0 ==> after_artists(
            s,
            hits,
        ).stage == SearchStage::Later(0),
        s.stage == SearchStage::Later(i) && i + 1 < s.later.len() ==> after_releases(s, false).stage
            == SearchStage::Later((i + 1) as usize),
        s.stage == SearchStage::Later(i) && i + 1 >= s.later.len() ==> after_releases(
            s,
            false,
        ).stage is Over,
{
}

/// Years are looked up in the order of the releases, for each that lacks one
/// and belongs to a group, and for no other.
pub proof fn law_missing_years_are_asked_for_in_order(rs: Seq<MbRelease>, i: int)
    requires
        0 <= i <= rs.len(),
        rs.len() <= usize::MAX,
    ensures
        match year_stage(rs, i) {
            CompletionStage::Year(k) => i <= k < rs.len() && rs[k as int].year is None
                && rs[k as int].release_group_id is Some && forall|j: int|
                i <= j < k ==> (#[trigger] rs[j]).year is Some || rs[j].release_group_id is None,
            CompletionStage::Complete => forall|j: int|
                i <= j < rs.len() ==> (#[trigger] rs[j]).year is Some || rs[j].release_group_id is None,
            CompletionStage::Alternates(_) => false,
        },
    decreases rs.len() - i,
{
    if i < rs.len() && !lacks_year(rs[i]) {
        law_missing_years_are_asked_for_in_order(rs, i + 1);
    }
}

} // verus!
