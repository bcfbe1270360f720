//! Rows as the database hands them out. Paths in them are absolute.
use vstd::prelude::*;

verus! {

/// An album in the album list.
#[derive(Debug, Clone)]
pub struct AlbumRow {
    pub id: i64,
    pub title: String,
    pub album_artist: Option<String>,
    pub year: Option<i32>,
    pub track_count: i64,
    pub formats: String,
    pub total_duration_ms: i64,
    /// The release that the album was matched to.
    pub mbid: Option<String>,
    pub label: Option<String>,
    pub genre: Option<String>,
    pub cover_art_path: Option<String>,
}

/// A track in a track list.
#[derive(Debug)]
pub struct TrackRow {
    pub id: i64,
    pub title: String,
    pub artist: Option<String>,
    pub track_number: Option<u32>,
    pub disc_number: u32,
    pub duration_ms: Option<u64>,
    pub tag_status: String,
    pub bitrate: Option<u32>,
    pub file_format: String,
    pub file_path: String,
}

/// A collection in the collection list.
#[derive(Debug, Clone)]
pub struct CollectionRow {
    pub id: i64,
    pub name: String,
    pub description: Option<String>,
    pub track_count: i64,
    pub total_duration_ms: i64,
}

/// A track of a collection, with what else it belongs to.
#[derive(Debug, Clone)]
pub struct CollectionTrackHomes {
    pub track_id: i64,
    pub track_file_path: String,
    pub collection_file_path: Option<String>,
    pub has_album: bool,
    pub other_collection_count: u32,
}

/// What deleting a track has to know of it.
#[derive(Debug, Clone)]
pub struct TrackDeleteInfo {
    pub track_id: i64,
    pub file_path: String,
    pub album_id: Option<i64>,
    pub collection_count: u32,
    /// The recorded collection copies of the track.
    pub collection_copies: Vec<String>,
}

/// One collection that a track to be organized is in.
#[derive(Debug)]
pub struct OrganizeCollectionMembership {
    pub id: i64,
    pub name: String,
    pub path_template: Option<String>,
    pub effective_position: u32,
    /// The recorded path of the collection copy.
    pub collection_file_path: Option<String>,
}

/// A copy of an optional text.
pub fn copy_text(o: &Option<String>) -> (r: Option<String>)
    ensures
        r == *o,
{
    match o {
        Some(s) => Some(s.clone()),
        None => None,
    }
}

impl Clone for TrackRow {
    fn clone(&self) -> (r: Self)
        ensures
            r == *self,
    {
        TrackRow {
            id: self.id,
            title: self.title.clone(),
            artist: copy_text(&self.artist),
            track_number: self.track_number,
            disc_number: self.disc_number,
            duration_ms: self.duration_ms,
            tag_status: self.tag_status.clone(),
            bitrate: self.bitrate,
            file_format: self.file_format.clone(),
            file_path: self.file_path.clone(),
        }
    }
}

impl Clone for OrganizeCollectionMembership {
    fn clone(&self) -> (r: Self)
        ensures
            r == *self,
    {
        OrganizeCollectionMembership {
            id: self.id,
            name: self.name.clone(),
            path_template: copy_text(&self.path_template),
            effective_position: self.effective_position,
            collection_file_path: copy_text(&self.collection_file_path),
        }
    }
}

/// A track to be organized.
#[derive(Debug, Clone)]
pub struct OrganizeTrackRow {
    pub id: i64,
    pub title: String,
    pub artist: Option<String>,
    pub track_number: Option<u32>,
    pub disc_number: u32,
    pub file_path: String,
    pub album_id: Option<i64>,
    pub album_title: Option<String>,
    pub album_artist: Option<String>,
    pub year: Option<i32>,
    pub genre: Option<String>,
    pub label: Option<String>,
    pub disc_total: Option<u32>,
    pub collections: Vec<OrganizeCollectionMembership>,
}

/// A track that is already in the library.
#[derive(Debug, Clone)]
pub struct ExistingTrackRef {
    pub id: i64,
    pub album_id: Option<i64>,
    pub title: String,
    pub artist: Option<String>,
    pub album_title: Option<String>,
    pub track_number: Option<u32>,
    pub disc_number: u32,
    pub duration_ms: Option<u64>,
    pub bitrate: Option<u32>,
    pub file_format: String,
    pub file_path: String,
    pub file_size: Option<i64>,
    pub mbid: Option<String>,
    pub tag_status: String,
}

/// A file whose track row is gone.
#[derive(Debug)]
pub struct OrphanFileRow {
    pub id: i64,
    pub file_path: String,
    pub title: Option<String>,
    pub artist: Option<String>,
    pub album_title: Option<String>,
    pub reason: String,
}

impl Clone for OrphanFileRow {
    fn clone(&self) -> (r: Self)
        ensures
            r == *self,
    {
        OrphanFileRow {
            id: self.id,
            file_path: self.file_path.clone(),
            title: copy_text(&self.title),
            artist: copy_text(&self.artist),
            album_title: copy_text(&self.album_title),
            reason: self.reason.clone(),
        }
    }
}

} // verus!
