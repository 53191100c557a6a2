//! The track that plays.

use vstd::prelude::*;
use vstd::string::*;

use crate::text;

verus! {

/// A track, as far as it is known: an unknown part is empty.
#[derive(Debug, PartialEq, Eq)]
pub struct Track {
    pub title: String,
    pub artist: String,
}

/// The texts of a `Track`.
pub struct TrackText {
    pub title: Seq<char>,
    pub artist: Seq<char>,
}

impl View for Track {
    type V = TrackText;

    open spec fn view(&self) -> TrackText {
        TrackText { title: self.title@, artist: self.artist@ }
    }
}

impl Clone for Track {
    fn clone(&self) -> (res: Self)
        ensures
            res@ == self@,
            res.title@ == self.title@,
            res.artist@ == self.artist@,
    {
        Track { title: self.title.clone(), artist: self.artist.clone() }
    }
}

impl Default for Track {
    /// A track of which nothing is known.
    fn default() -> (res: Self)
        ensures
            res@.title.len() == 0,
            res@.artist.len() == 0,
    {
        Track { title: String::new(), artist: String::new() }
    }
}

/// How a track is shown: artist and title, or the one that is known.
pub open spec fn shown(t: TrackText) -> Seq<char> {
    if t.artist.len() == 0 && t.title.len() == 0 {
        "(no track)"@
    } else if t.artist.len() == 0 {
        t.title
    } else if t.title.len() == 0 {
        t.artist
    } else {
        t.artist + " — "@ + t.title
    }
}

/// A track shows all that is known of it: the artist before the title where both
/// are known, else the one that is known by itself.
pub proof fn lemma_tracks_show_what_is_known(t: TrackText)
    ensures
        t.artist.len() > 0 && t.title.len() > 0 ==> shown(t) == t.artist + " — "@ + t.title,
        t.artist.len() > 0 && t.title.len() > 0 ==> t.artist.is_prefix_of(shown(t))
            && t.title.is_suffix_of(shown(t)) && shown(t).len() == t.artist.len() + " — "@.len()
            + t.title.len(),
        t.artist.len() == 0 && t.title.len() > 0 ==> shown(t) == t.title,
        t.artist.len() > 0 && t.title.len() == 0 ==> shown(t) == t.artist,
        t.artist.len() == 0 && t.title.len() == 0 ==> shown(t) == "(no track)"@,
{
}

/// The text of a track is that of its two parts, and a missing track has none.
pub proof fn lemma_track_texts(track: Option<Track>)
    ensures
        (track_text(track) is Some) == (track is Some),
        track is Some ==> track_text(track)->0.title == track->0.title@,
        track is Some ==> track_text(track)->0.artist == track->0.artist@,
{
}

impl Track {
    /// The track as one line of text.
    pub fn display(&self) -> (res: String)
        ensures
            res@ == shown(self@),
    {
        match (self.artist.as_str().is_empty(), self.title.as_str().is_empty()) {
            (true, true) => "(no track)".to_owned(),
            (true, false) => self.title.clone(),
            (false, true) => self.artist.clone(),
            (false, false) => {
                self.artist.clone().concat(" — ").concat(self.title.as_str())
            },
        }
    }

    /// Whether two tracks have the same title and artist.
    pub fn same_as(&self, other: &Track) -> (res: bool)
        ensures
            res == (self@ == other@),
            res == (self.title@ == other.title@ && self.artist@ == other.artist@),
    {
        text::same_text(self.title.as_str(), other.title.as_str()) && text::same_text(
            self.artist.as_str(),
            other.artist.as_str(),
        )
    }
}

/// The text of a track that may be missing.
pub open spec fn track_text(track: Option<Track>) -> Option<TrackText> {
    match track {
        Some(t) => Some(t@),
        None => None,
    }
}

/// The track at the start. No source of tracks is connected, so there is none,
/// and there stays none: palettes change by hand alone.
pub fn start() -> (res: Option<Track>)
    ensures
        res is None,
{
    None
}

} // verus!
