use music_finder::dispatch::{
    choose_provider, identifier_from, provider_for_url, search_query, spotify_track_id,
    youtube_video_id, InputError, Provider,
};

#[test]
fn routes_the_four_urls() {
    assert_eq!(provider_for_url("https://youtu.be/XYZ"), Ok(Provider::YouTube));
    assert_eq!(provider_for_url("https://open.spotify.com/track/ABC"), Ok(Provider::Spotify));
    assert_eq!(provider_for_url("https://jiosaavn.com/song/some-song/abc"), Ok(Provider::JioSaavn));
    assert_eq!(provider_for_url("https://example.com/"), Err(InputError::InvalidUrl));
}

#[test]
fn routes_by_pattern_not_by_host() {
    assert_eq!(provider_for_url("https://www.youtube.com/watch?v=abc"), Ok(Provider::YouTube));
    assert_eq!(provider_for_url("youtube"), Ok(Provider::YouTube));
    assert_eq!(provider_for_url("youtuXbe"), Err(InputError::InvalidUrl));
    assert_eq!(provider_for_url("https://example.com/?from=spotify"), Ok(Provider::Spotify));
    assert_eq!(provider_for_url(""), Err(InputError::InvalidUrl));
    assert_eq!(provider_for_url("JIOSAAVN"), Err(InputError::InvalidUrl));
}

#[test]
fn video_service_is_tried_first() {
    assert_eq!(provider_for_url("https://youtu.be/spotify-jiosaavn"), Ok(Provider::YouTube));
    assert_eq!(provider_for_url("https://spotify.com/jiosaavn"), Ok(Provider::Spotify));
}

#[test]
fn provider_from_match_results() {
    assert_eq!(choose_provider(Some(true), Some(true), Some(true)), Ok(Provider::YouTube));
    assert_eq!(choose_provider(Some(false), Some(true), Some(true)), Ok(Provider::Spotify));
    assert_eq!(choose_provider(Some(false), Some(false), Some(true)), Ok(Provider::JioSaavn));
    assert_eq!(choose_provider(Some(false), Some(false), Some(false)), Err(InputError::InvalidUrl));
    assert_eq!(choose_provider(None, Some(true), Some(true)), Err(InputError::BadPattern));
    assert_eq!(choose_provider(Some(true), None, Some(false)), Err(InputError::BadPattern));
    assert_eq!(choose_provider(Some(true), Some(false), None), Err(InputError::BadPattern));
}

#[test]
fn reads_the_track_identifier() {
    assert_eq!(
        spotify_track_id("https://open.spotify.com/track/4uLU6hMCjMI75M1A2tKUQC?si=1"),
        Ok("4uLU6hMCjMI75M1A2tKUQC".to_string())
    );
    assert_eq!(spotify_track_id("https://open.spotify.com/album/xyz"), Err(InputError::InvalidUrl));
    assert_eq!(spotify_track_id("https://example.com/track/abc"), Err(InputError::InvalidUrl));
}

#[test]
fn reads_the_video_identifier() {
    assert_eq!(
        youtube_video_id("https://www.youtube.com/watch?v=dQw4w9WgXcQ"),
        Ok("dQw4w9WgXcQ".to_string())
    );
    assert_eq!(youtube_video_id("https://example.com/watch?v=abc"), Err(InputError::InvalidUrl));
}

#[test]
fn only_the_first_group_is_read() {
    assert_eq!(youtube_video_id("https://youtu.be/dQw4w9WgXcQ"), Err(InputError::InvalidUrl));
}

#[test]
fn identifier_from_a_capture() {
    assert_eq!(identifier_from(Some(Some("abc".to_string()))), Ok("abc".to_string()));
    assert_eq!(identifier_from(Some(None)), Err(InputError::InvalidUrl));
    assert_eq!(identifier_from(None), Err(InputError::BadPattern));
}

#[test]
fn search_text_joins_name_and_first_artist() {
    assert_eq!(search_query("Song", Some("Artist")), "Song Artist");
    assert_eq!(search_query("Song", None), "Song");
    assert_eq!(search_query("", Some("")), " ");
}
