use music_finder::schema::{
    get_jiosaavan_url, Album, Artists, DownloadUrlItem, TrackResult, YoutubeMusicData,
};

fn track_with_downloads(count: usize) -> TrackResult {
    let mut download_url = Vec::new();
    for i in 0..count {
        download_url.push(DownloadUrlItem { quality: format!("q{}", i), url: format!("u{}", i) });
    }
    TrackResult {
        id: "a".to_string(),
        name: "A".to_string(),
        kind: "song".to_string(),
        year: None,
        release_date: None,
        duration: None,
        label: None,
        explicit_content: false,
        play_count: None,
        language: "en".to_string(),
        has_lyrics: false,
        lyrics_id: None,
        url: "page".to_string(),
        copyright: None,
        album: Album { id: None, name: None, url: None },
        artists: Artists { primary: Vec::new(), featured: Vec::new(), all: Vec::new() },
        image: Vec::new(),
        download_url,
    }
}

#[test]
fn fewer_than_five_downloads_select_the_last() {
    assert_eq!(get_jiosaavan_url(track_with_downloads(1)), "u0");
    assert_eq!(get_jiosaavan_url(track_with_downloads(2)), "u1");
    assert_eq!(get_jiosaavan_url(track_with_downloads(4)), "u3");
}

#[test]
fn five_or_more_downloads_select_the_fifth() {
    assert_eq!(get_jiosaavan_url(track_with_downloads(5)), "u4");
    assert_eq!(get_jiosaavan_url(track_with_downloads(6)), "u4");
    assert_eq!(get_jiosaavan_url(track_with_downloads(12)), "u4");
}

fn upload() -> YoutubeMusicData {
    YoutubeMusicData {
        id: "vid".to_string(),
        title: "Title".to_string(),
        thumbnail: "thumb".to_string(),
        duration: "212.5".to_string(),
        url: "watch".to_string(),
        uploader: "Uploader".to_string(),
        channel_url: "channel".to_string(),
        description: "text".to_string(),
        timestamp: "1".to_string(),
        upload_date: "20200101".to_string(),
    }
}

#[test]
fn upload_becomes_a_track() {
    let data = upload();
    let parsed = data.duration.parse::<f64>().ok().map(|x| x.to_bits());
    let track = data.to_track(parsed);
    assert_eq!(track.id, "vid");
    assert_eq!(track.url, "watch");
    assert_eq!(track.name, "Title");
    assert_eq!(track.duration.map(f64::from_bits), Some(212.5));
    assert_eq!(track.kind, "youtube");
    assert_eq!(track.language, "en");
    assert!(track.year.is_none() && track.release_date.is_none() && track.label.is_none());
    assert!(track.play_count.is_none() && track.lyrics_id.is_none() && track.copyright.is_none());
    assert!(!track.explicit_content && !track.has_lyrics);
    assert!(track.album.id.is_none() && track.album.name.is_none() && track.album.url.is_none());
    assert_eq!(track.artists.primary.len(), 1);
    assert_eq!(track.artists.all.len(), 1);
    assert!(track.artists.featured.is_empty());
    for artist in [&track.artists.primary[0], &track.artists.all[0]] {
        assert_eq!(artist.id, "vid");
        assert_eq!(artist.name, "Uploader");
        assert_eq!(artist.role, "Artist");
        assert_eq!(artist.kind, "person");
        assert_eq!(artist.url, "channel");
        assert!(artist.image.is_empty());
    }
    assert_eq!(track.image.len(), 1);
    assert_eq!((track.image[0].quality.as_str(), track.image[0].url.as_str()), ("high", "thumb"));
    assert_eq!(track.download_url.len(), 1);
    assert_eq!(track.download_url[0].quality, "high");
    assert_eq!(track.download_url[0].url, "watch");
    assert_eq!(get_jiosaavan_url(track), "watch");
}

#[test]
fn unreadable_duration_becomes_zero() {
    let track = upload().to_track(None);
    assert_eq!(track.duration, Some(0));
    assert_eq!(track.duration.map(f64::from_bits), Some(0.0));
}
