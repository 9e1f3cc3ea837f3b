//! Ids, groups and errors of the timeline document.

use vstd::prelude::*;

verus! {

/// Identifies a track group.
#[derive(Clone, Copy, Debug, PartialEq, Eq, Structural, Hash, PartialOrd, Ord)]
pub struct GroupId(pub u32);

/// Identifies a track.
#[derive(Clone, Copy, Debug, PartialEq, Eq, Structural, Hash, PartialOrd, Ord)]
pub struct TrackId(pub u32);

/// Identifies a media clip.
#[derive(Clone, Copy, Debug, PartialEq, Eq, Structural, Hash, PartialOrd, Ord)]
pub struct MediaId(pub u32);

/// Identifies a marker.
#[derive(Clone, Copy, Debug, PartialEq, Eq, Structural, Hash, PartialOrd, Ord)]
pub struct MarkerId(pub u32);

/// A titled group of tracks, possibly inside another group.
#[derive(Clone, Debug, PartialEq)]
pub struct TrackGroup {
    pub id: GroupId,
    pub title: String,
    pub parent: Option<GroupId>,
}

/// Why a timeline edit was refused.
#[derive(Clone, Copy, Debug, PartialEq, Eq, Structural)]
pub enum TimelineError {
    IdExhausted,
    UnknownGroup,
    UnknownTrack,
    UnknownChannel,
    UnknownArchetype,
    UnsupportedMedia,
    InvalidTime,
    InvalidClipRange,
    InvalidKey,
}

impl TimelineError {
    /// The error's name, as it is shown to people.
    pub fn message(&self) -> (s: &'static str)
        ensures
            s@ == self.spec_message(),
    {
        match self {
            TimelineError::IdExhausted => {
                proof { reveal_strlit("IdExhausted"); }
                "IdExhausted"
            },
            TimelineError::UnknownGroup => {
                proof { reveal_strlit("UnknownGroup"); }
                "UnknownGroup"
            },
            TimelineError::UnknownTrack => {
                proof { reveal_strlit("UnknownTrack"); }
                "UnknownTrack"
            },
            TimelineError::UnknownChannel => {
                proof { reveal_strlit("UnknownChannel"); }
                "UnknownChannel"
            },
            TimelineError::UnknownArchetype => {
                proof { reveal_strlit("UnknownArchetype"); }
                "UnknownArchetype"
            },
            TimelineError::UnsupportedMedia => {
                proof { reveal_strlit("UnsupportedMedia"); }
                "UnsupportedMedia"
            },
            TimelineError::InvalidTime => {
                proof { reveal_strlit("InvalidTime"); }
                "InvalidTime"
            },
            TimelineError::InvalidClipRange => {
                proof { reveal_strlit("InvalidClipRange"); }
                "InvalidClipRange"
            },
            TimelineError::InvalidKey => {
                proof { reveal_strlit("InvalidKey"); }
                "InvalidKey"
            },
        }
    }

    /// The error's name.
    pub open spec fn spec_message(&self) -> Seq<char> {
        match self {
            TimelineError::IdExhausted => seq!['I', 'd', 'E', 'x', 'h', 'a', 'u', 's', 't', 'e', 'd'],
            TimelineError::UnknownGroup => seq!['U', 'n', 'k', 'n', 'o', 'w', 'n', 'G', 'r', 'o', 'u', 'p'],
            TimelineError::UnknownTrack => seq!['U', 'n', 'k', 'n', 'o', 'w', 'n', 'T', 'r', 'a', 'c', 'k'],
            TimelineError::UnknownChannel => seq!['U', 'n', 'k', 'n', 'o', 'w', 'n', 'C', 'h', 'a', 'n', 'n', 'e', 'l'],
            TimelineError::UnknownArchetype => seq!['U', 'n', 'k', 'n', 'o', 'w', 'n', 'A', 'r', 'c', 'h', 'e', 't', 'y', 'p', 'e'],
            TimelineError::UnsupportedMedia => seq!['U', 'n', 's', 'u', 'p', 'p', 'o', 'r', 't', 'e', 'd', 'M', 'e', 'd', 'i', 'a'],
            TimelineError::InvalidTime => seq!['I', 'n', 'v', 'a', 'l', 'i', 'd', 'T', 'i', 'm', 'e'],
            TimelineError::InvalidClipRange => seq!['I', 'n', 'v', 'a', 'l', 'i', 'd', 'C', 'l', 'i', 'p', 'R', 'a', 'n', 'g', 'e'],
            TimelineError::InvalidKey => seq!['I', 'n', 'v', 'a', 'l', 'i', 'd', 'K', 'e', 'y'],
        }
    }
}

} // verus!
