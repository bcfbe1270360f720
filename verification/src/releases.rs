//! Releases as the music database describes them.
use vstd::prelude::*;

use crate::rows::copy_text;
use crate::text::{ascii_lower_text, ascii_lowered, same};

verus! {

/// A release, or a candidate for one from a search.
#[derive(Debug)]
pub struct MbRelease {
    pub id: String,
    pub title: String,
    pub artist: String,
    pub year: Option<i32>,
    pub country: Option<String>,
    pub label: Option<String>,
    pub status: Option<String>,
    pub track_count: u32,
    pub medium_count: u32,
    pub tracks: Vec<MbTrack>,
    /// How relevant the search found the release, out of a hundred.
    pub api_score: u8,
    /// The release group, which knows the first release date where the
    /// release itself exposes none.
    pub release_group_id: Option<String>,
    /// The earliest year known of the release group.
    pub group_min_year: Option<i32>,
}

/// One track of a release.
#[derive(Debug)]
pub struct MbTrack {
    /// The medium, counted from one.
    pub disc: u32,
    /// The position on the medium, counted from one.
    pub position: u32,
    pub title: String,
    pub artist: Option<String>,
    pub duration_ms: Option<u64>,
    pub recording_id: String,
}

impl Clone for MbTrack {
    fn clone(&self) -> (r: MbTrack)
        ensures
            r == *self,
    {
        MbTrack {
            disc: self.disc,
            position: self.position,
            title: self.title.clone(),
            artist: copy_text(&self.artist),
            duration_ms: self.duration_ms,
            recording_id: self.recording_id.clone(),
        }
    }
}

/// Copies of `tracks`, in order.
pub fn copy_tracks(tracks: &Vec<MbTrack>) -> (r: Vec<MbTrack>)
    ensures
        r@ == tracks@,
{
    let mut out: Vec<MbTrack> = Vec::new();
    let mut i: usize = 0;
    while i < tracks.len()
        invariant
            i <= tracks@.len(),
            out@ == tracks@.take(i as int),
        decreases tracks@.len() - i,
    {
        out.push(tracks[i].clone());
        i += 1;
        assert(tracks@.take(i as int) =~= tracks@.take(i - 1).push(tracks@[i - 1]));
    }
    assert(tracks@.take(tracks@.len() as int) =~= tracks@);
    out
}

/// Whether two releases say the same.
pub open spec fn same_release(a: MbRelease, b: MbRelease) -> bool {
    &&& a.id == b.id
    &&& a.title == b.title
    &&& a.artist == b.artist
    &&& a.year == b.year
    &&& a.country == b.country
    &&& a.label == b.label
    &&& a.status == b.status
    &&& a.track_count == b.track_count
    &&& a.medium_count == b.medium_count
    &&& a.tracks@ == b.tracks@
    &&& a.api_score == b.api_score
    &&& a.release_group_id == b.release_group_id
    &&& a.group_min_year == b.group_min_year
}

impl Clone for MbRelease {
    fn clone(&self) -> (r: MbRelease)
        ensures
            same_release(r, *self),
    {
        MbRelease {
            id: self.id.clone(),
            title: self.title.clone(),
            artist: self.artist.clone(),
            year: self.year,
            country: copy_text(&self.country),
            label: copy_text(&self.label),
            status: copy_text(&self.status),
            track_count: self.track_count,
            medium_count: self.medium_count,
            tracks: copy_tracks(&self.tracks),
            api_score: self.api_score,
            release_group_id: copy_text(&self.release_group_id),
            group_min_year: self.group_min_year,
        }
    }
}

/// Whether `status` reads `word`, whatever the case of its ASCII letters.
pub open spec fn status_reads(status: Option<String>, word: Seq<char>) -> bool {
    status is Some && ascii_lowered(status->0@) == ascii_lowered(word)
}

/// Whether `status` reads `word`, whatever the case of its ASCII letters.
pub fn reads(status: &Option<String>, word: &str) -> (r: bool)
    ensures
        r == status_reads(*status, word@),
{
    match status {
        Some(s) => {
            let a = ascii_lower_text(s.as_str());
            let b = ascii_lower_text(word);
            same(a.as_str(), b.as_str())
        },
        None => false,
    }
}

impl MbRelease {
    /// Whether the release is a translation or transliteration of another
    /// rather than one that was ever pressed.
    pub fn is_pseudo_release(&self) -> (r: bool)
        ensures
            r == status_reads(self.status, "Pseudo-Release"@),
    {
        reads(&self.status, "Pseudo-Release")
    }
}

} // verus!
