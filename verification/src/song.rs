//! The stored form of a song record, in which most fields may be absent.

use vstd::prelude::*;

verus! {

/// A song as it is kept in the metadata store.
#[derive(Clone, Debug)]
pub struct SongInfo {
    pub id: String,
    pub name: String,
    pub song_type: Option<String>,
    pub year: Option<String>,
    pub release_date: Option<String>,
    /// Length in seconds, as the bits of a double.
    pub duration: Option<u64>,
    pub label: Option<String>,
    pub explicit_content: bool,
    pub play_count: Option<u64>,
    pub language: Option<String>,
    pub has_lyrics: bool,
    pub lyrics_id: Option<String>,
    pub url: String,
    pub copyright: Option<String>,
    pub album: Option<Album>,
    pub artists: Option<Artists>,
    pub image: Vec<Image>,
    pub download_url: Vec<DownloadUrl>,
}

/// The album of a stored song.
#[derive(Clone, Debug)]
pub struct Album {
    pub id: Option<String>,
    pub name: Option<String>,
    pub url: Option<String>,
}

/// The artists of a stored song, by role.
#[derive(Clone, Debug)]
pub struct Artists {
    pub primary: Vec<Artist>,
    pub featured: Vec<Artist>,
    pub all: Vec<Artist>,
}

/// One artist credit of a stored song.
#[derive(Clone, Debug)]
pub struct Artist {
    pub id: Option<String>,
    pub name: Option<String>,
    pub role: Option<String>,
    pub artist_type: Option<String>,
    pub image: Vec<Image>,
    pub url: Option<String>,
}

/// A picture in one quality.
#[derive(Clone, Debug)]
pub struct Image {
    pub quality: String,
    pub url: String,
}

/// A media file in one quality.
#[derive(Clone, Debug)]
pub struct DownloadUrl {
    pub quality: String,
    pub url: String,
}

} // verus!
