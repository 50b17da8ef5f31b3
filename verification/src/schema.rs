//! Records exchanged with catalog providers.
//!
//! A duration or a play count is kept as the bit pattern of its IEEE-754
//! double: the library carries such numbers through without computing on
//! them.

use vstd::prelude::*;
use vstd::string::*;

verus! {

/// Body of a lookup request: the URL of the track asked for.
#[derive(Clone, Debug)]
pub struct Req {
    pub url: String,
}

/// Answer of a catalog search.
#[derive(Clone, Debug)]
pub struct TrackSearch {
    pub success: bool,
    pub data: TrackSearchData,
}

/// One page of search results.
#[derive(Clone, Debug)]
pub struct TrackSearchData {
    pub total: i32,
    pub start: i32,
    pub results: Vec<TrackResult>,
}

/// Metadata of one catalog track.
#[derive(Clone, Debug)]
pub struct TrackResult {
    pub id: String,
    pub name: String,
    pub kind: String,
    pub year: Option<String>,
    pub release_date: Option<String>,
    /// Length in seconds, as the bits of a double.
    pub duration: Option<u64>,
    pub label: Option<String>,
    pub explicit_content: bool,
    /// Number of plays, as the bits of a double.
    pub play_count: Option<u64>,
    pub language: String,
    pub has_lyrics: bool,
    pub lyrics_id: Option<String>,
    pub url: String,
    pub copyright: Option<String>,
    pub album: Album,
    pub artists: Artists,
    pub image: Vec<ImageItem>,
    pub download_url: Vec<DownloadUrlItem>,
}

/// The album a track belongs to.
#[derive(Clone, Debug)]
pub struct Album {
    pub id: Option<String>,
    pub name: Option<String>,
    pub url: Option<String>,
}

/// The artists of a track, by role.
#[derive(Clone, Debug)]
pub struct Artists {
    pub primary: Vec<Artist>,
    pub featured: Vec<Artist>,
    pub all: Vec<Artist>,
}

/// One artist credit.
#[derive(Clone, Debug)]
pub struct Artist {
    pub id: String,
    pub name: String,
    pub role: String,
    pub kind: String,
    pub image: Vec<ImageItem>,
    pub url: String,
}

/// A picture in one quality.
#[derive(Clone, Debug)]
pub struct ImageItem {
    pub quality: String,
    pub url: String,
}

/// A media file in one quality.
#[derive(Clone, Debug)]
pub struct DownloadUrlItem {
    pub quality: String,
    pub url: String,
}

/// What a video service reports about one upload.
#[derive(Clone, Debug)]
pub struct YoutubeMusicData {
    pub id: String,
    pub title: String,
    pub thumbnail: String,
    pub duration: String,
    pub url: String,
    pub uploader: String,
    pub channel_url: String,
    pub description: String,
    pub timestamp: String,
    pub upload_date: String,
}

/// The place of the download that is fetched for ingest: the fifth where
/// there are five or more, the last where there are fewer.
pub open spec fn download_place(downloads: int) -> int {
    if downloads < 5 {
        downloads - 1
    } else {
        4
    }
}

/// The URL from which the audio of a track is fetched.
pub fn get_jiosaavan_url(val: TrackResult) -> (url: String)
    requires
        val.download_url.len() > 0,
    ensures
        url@ == val.download_url[download_place(val.download_url.len() as int)].url@,
{
    let downloads = &val.download_url;
    if downloads.len() < 5 {
        downloads[downloads.len() - 1].url.clone()
    } else {
        downloads[4].url.clone()
    }
}

/// Whether `artist` is the credit made for the uploader of `data`.
pub open spec fn is_uploader_credit(artist: Artist, data: YoutubeMusicData) -> bool {
    &&& artist.id@ == data.id@
    &&& artist.name@ == data.uploader@
    &&& artist.role@ == "Artist"@
    &&& artist.kind@ == "person"@
    &&& artist.image.len() == 0
    &&& artist.url@ == data.channel_url@
}

/// Whether `track` is the catalog record made of the upload `data` with
/// the duration `duration`.
pub open spec fn is_track_of(track: TrackResult, data: YoutubeMusicData, duration: u64) -> bool {
    &&& track.id@ == data.id@
    &&& track.url@ == data.url@
    &&& track.name@ == data.title@
    &&& track.duration == Some(duration)
    &&& track.kind@ == "youtube"@
    &&& track.year is None
    &&& track.release_date is None
    &&& track.label is None
    &&& !track.explicit_content
    &&& track.play_count is None
    &&& track.language@ == "en"@
    &&& !track.has_lyrics
    &&& track.lyrics_id is None
    &&& track.copyright is None
    &&& track.album.id is None
    &&& track.album.name is None
    &&& track.album.url is None
    &&& track.artists.primary.len() == 1
    &&& is_uploader_credit(track.artists.primary[0], data)
    &&& track.artists.featured.len() == 0
    &&& track.artists.all.len() == 1
    &&& is_uploader_credit(track.artists.all[0], data)
    &&& track.image.len() == 1
    &&& track.image[0].quality@ == "high"@
    &&& track.image[0].url@ == data.thumbnail@
    &&& track.download_url.len() == 1
    &&& track.download_url[0].quality@ == "high"@
    &&& track.download_url[0].url@ == data.url@
}

impl YoutubeMusicData {
    fn uploader_credit(&self) -> (artist: Artist)
        ensures
            is_uploader_credit(artist, *self),
    {
        Artist {
            id: self.id.clone(),
            name: self.uploader.clone(),
            role: String::from_str("Artist"),
            kind: String::from_str("person"),
            image: Vec::new(),
            url: self.channel_url.clone(),
        }
    }

    /// Makes the catalog record of an upload. `duration` is the length
    /// that the upload states, as the bits of a double, where its text
    /// denotes a number; a length of zero is recorded where it does not.
    pub fn to_track(self, duration: Option<u64>) -> (track: TrackResult)
        ensures
            is_track_of(
                track,
                self,
                match duration {
                    Some(bits) => bits,
                    None => 0,
                },
            ),
    {
        let bits: u64 = match duration {
            Some(bits) => bits,
            None => 0,
        };
        let mut primary: Vec<Artist> = Vec::new();
        primary.push(self.uploader_credit());
        let mut all: Vec<Artist> = Vec::new();
        all.push(self.uploader_credit());
        let mut image: Vec<ImageItem> = Vec::new();
        image.push(ImageItem { quality: String::from_str("high"), url: self.thumbnail.clone() });
        let mut download_url: Vec<DownloadUrlItem> = Vec::new();
        download_url.push(
            DownloadUrlItem { quality: String::from_str("high"), url: self.url.clone() },
        );
        TrackResult {
            id: self.id.clone(),
            url: self.url.clone(),
            name: self.title.clone(),
            duration: Some(bits),
            kind: String::from_str("youtube"),
            year: None,
            release_date: None,
            label: None,
            explicit_content: false,
            play_count: None,
            language: String::from_str("en"),
            has_lyrics: false,
            lyrics_id: None,
            copyright: None,
            album: Album { id: None, name: None, url: None },
            artists: Artists { primary, featured: Vec::new(), all },
            image,
            download_url,
        }
    }
}


} // verus!
