//! Routing of a URL to the catalog provider that can resolve it, and what
//! each provider reads out of a URL.
//!
//! The patterns are regular expressions. Matching is done by the `regex`
//! crate; the rules that follow a match are stated and proved here.

use vstd::prelude::*;
use vstd::string::*;

verus! {

/// A catalog provider.
#[derive(Clone, Copy, Debug, PartialEq, Eq, Structural)]
pub enum Provider {
    YouTube,
    Spotify,
    JioSaavn,
}

/// Why a URL was not accepted.
#[derive(Clone, Copy, Debug, PartialEq, Eq, Structural)]
pub enum InputError {
    /// A pattern could not be compiled.
    BadPattern,
    /// The URL matches no supported provider, or holds no identifier.
    InvalidUrl,
}

/// Whether the regular expression `pattern` matches somewhere in `text`, as
/// `regex::Regex` decides it; `None` where `pattern` does not compile.
pub uninterp spec fn pattern_match(pattern: Seq<char>, text: Seq<char>) -> Option<bool>;

/// What the first capture group of the regular expression `pattern` holds
/// at the first match in `text`, as `regex::Regex` decides it. The outer
/// `None` stands for a pattern that does not compile, the inner one for no
/// match or a group that took no part in the match.
pub uninterp spec fn pattern_group(pattern: Seq<char>, text: Seq<char>) -> Option<
    Option<Seq<char>>,
>;

/// The text that a capture holds.
pub open spec fn group_text(group: Option<Option<String>>) -> Option<Option<Seq<char>>> {
    match group {
        Some(Some(held)) => Some(Some(held@)),
        Some(None) => Some(None),
        None => None,
    }
}

/// The text of an identifier that was read, or the error.
pub open spec fn identifier_text(id: Result<String, InputError>) -> Result<Seq<char>, InputError> {
    match id {
        Ok(text) => Ok(text@),
        Err(e) => Err(e),
    }
}

/// Compiles `pattern` with `regex::Regex::new` and asks `Regex::is_match`
/// whether it matches anywhere in `text`. Nothing is proved of the answer:
/// the contract only names it.
#[verifier::external_body]
fn pattern_found(pattern: &str, text: &str) -> (found: Option<bool>)
    ensures
        found == pattern_match(pattern@, text@),
{
    match regex::Regex::new(pattern) {
        Ok(re) => Some(re.is_match(text)),
        Err(_) => None,
    }
}

/// Compiles `pattern` with `regex::Regex::new`, searches `text` with
/// `Regex::captures` and copies what `Captures::get(1)` holds. Nothing is
/// proved of the answer: the contract only names it.
#[verifier::external_body]
fn first_group(pattern: &str, text: &str) -> (group: Option<Option<String>>)
    ensures
        group_text(group) == pattern_group(pattern@, text@),
{
    match regex::Regex::new(pattern) {
        Ok(re) => match re.captures(text) {
            Some(found) => match found.get(1) {
                Some(held) => Some(Some(held.as_str().to_string())),
                None => Some(None),
            },
            None => Some(None),
        },
        Err(_) => None,
    }
}

/// The pattern of a video-service URL.
pub open spec fn youtube_pattern() -> Seq<char> {
    "youtu\\.?be"@
}

/// The pattern of a streaming-service URL.
pub open spec fn spotify_pattern() -> Seq<char> {
    "spotify"@
}

/// The pattern of a catalog URL.
pub open spec fn jiosaavn_pattern() -> Seq<char> {
    "jiosaavn"@
}

/// The pattern that captures the track identifier of a streaming-service
/// URL.
pub open spec fn spotify_track_pattern() -> Seq<char> {
    "spotify.+/track/([\\w\\d]+)"@
}

/// The pattern that captures the video identifier of a video-service URL.
pub open spec fn youtube_video_pattern() -> Seq<char> {
    "youtube.*v[=/]([\\d\\w_-]+)|youtube.*e/([\\d\\w_-]+)|youtube.*embed/([\\d\\w_-]+)|youtu\\.be/([\\d\\w_-]+)"@
}

/// The provider for three match results. All three patterns must compile.
/// The video service is tried first, then the streaming service, then the
/// catalog.
pub open spec fn route(youtube: Option<bool>, spotify: Option<bool>, jiosaavn: Option<bool>)
    -> Result<Provider, InputError> {
    if youtube is None || spotify is None || jiosaavn is None {
        Err(InputError::BadPattern)
    } else if youtube == Some(true) {
        Ok(Provider::YouTube)
    } else if spotify == Some(true) {
        Ok(Provider::Spotify)
    } else if jiosaavn == Some(true) {
        Ok(Provider::JioSaavn)
    } else {
        Err(InputError::InvalidUrl)
    }
}

/// The identifier that a capture holds.
pub open spec fn identifier_of(group: Option<Option<Seq<char>>>) -> Result<Seq<char>, InputError> {
    match group {
        Some(Some(held)) => Ok(held),
        Some(None) => Err(InputError::InvalidUrl),
        None => Err(InputError::BadPattern),
    }
}

/// The text with which a track is searched in the catalog: its name, and
/// after a space the name of its first artist where it has one.
pub open spec fn search_text(name: Seq<char>, first_artist: Option<Seq<char>>) -> Seq<char> {
    match first_artist {
        Some(artist) => name.push(' ') + artist,
        None => name,
    }
}

/// Chooses the provider from the three match results.
pub fn choose_provider(youtube: Option<bool>, spotify: Option<bool>, jiosaavn: Option<bool>) -> (choice:
    Result<Provider, InputError>)
    ensures
        choice == route(youtube, spotify, jiosaavn),
{
    match (youtube, spotify, jiosaavn) {
        (Some(y), Some(s), Some(j)) => {
            if y {
                Ok(Provider::YouTube)
            } else if s {
                Ok(Provider::Spotify)
            } else if j {
                Ok(Provider::JioSaavn)
            } else {
                Err(InputError::InvalidUrl)
            }
        },
        _ => Err(InputError::BadPattern),
    }
}

/// Routes a URL to its provider.
pub fn provider_for_url(url: &str) -> (choice: Result<Provider, InputError>)
    ensures
        choice == route(
            pattern_match(youtube_pattern(), url@),
            pattern_match(spotify_pattern(), url@),
            pattern_match(jiosaavn_pattern(), url@),
        ),
{
    let youtube = pattern_found("youtu\\.?be", url);
    let spotify = pattern_found("spotify", url);
    let jiosaavn = pattern_found("jiosaavn", url);
    choose_provider(youtube, spotify, jiosaavn)
}

/// Reads the identifier out of a capture.
pub fn identifier_from(group: Option<Option<String>>) -> (id: Result<String, InputError>)
    ensures
        identifier_text(id) == identifier_of(group_text(group)),
{
    match group {
        Some(Some(held)) => Ok(held),
        Some(None) => Err(InputError::InvalidUrl),
        None => Err(InputError::BadPattern),
    }
}

/// Reads the track identifier out of a streaming-service URL.
pub fn spotify_track_id(url: &str) -> (id: Result<String, InputError>)
    ensures
        identifier_text(id) == identifier_of(pattern_group(spotify_track_pattern(), url@)),
{
    identifier_from(first_group("spotify.+/track/([\\w\\d]+)", url))
}

/// Reads the video identifier out of a video-service URL.
pub fn youtube_video_id(url: &str) -> (id: Result<String, InputError>)
    ensures
        identifier_text(id) == identifier_of(pattern_group(youtube_video_pattern(), url@)),
{
    identifier_from(
        first_group(
            "youtube.*v[=/]([\\d\\w_-]+)|youtube.*e/([\\d\\w_-]+)|youtube.*embed/([\\d\\w_-]+)|youtu\\.be/([\\d\\w_-]+)",
            url,
        ),
    )
}

/// Builds the text with which a track is searched in the catalog.
pub fn search_query(name: &str, first_artist: Option<&str>) -> (text: String)
    ensures
        text@ == search_text(
            name@,
            match first_artist {
                Some(artist) => Some(artist@),
                None => None,
            },
        ),
{
    let mut text = String::from_str(name);
    match first_artist {
        Some(artist) => {
            proof {
                reveal_strlit(" ");
            }
            text.append(" ");
            text.append(artist);
            assert(text@ =~= name@.push(' ') + artist@);
        },
        None => {},
    }
    text
}

} // verus!
