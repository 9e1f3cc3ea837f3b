//! Consumer-provided timeline schema.

use vstd::prelude::*;

verus! {

/// Media payload accepted by a track.
#[derive(Clone, Copy, Debug, PartialEq, Eq)]
pub enum MediaKind {
    AnimationClip,
    AudioClip,
    UiMotion,
    VfxEvent,
    Event,
    Custom(&'static str),
}

impl MediaKind {
    /// The kind's name in documents: a fixed word for the built-in kinds,
    /// the consumer's own id for a custom one.
    pub fn as_str(self) -> (s: &'static str)
        ensures
            match self {
                MediaKind::AnimationClip => s@ == seq!['a', 'n', 'i', 'm', 'a', 't', 'i', 'o', 'n', '-', 'c', 'l', 'i', 'p'],
                MediaKind::AudioClip => s@ == seq!['a', 'u', 'd', 'i', 'o', '-', 'c', 'l', 'i', 'p'],
                MediaKind::UiMotion => s@ == seq!['u', 'i', '-', 'm', 'o', 't', 'i', 'o', 'n'],
                MediaKind::VfxEvent => s@ == seq!['v', 'f', 'x', '-', 'e', 'v', 'e', 'n', 't'],
                MediaKind::Event => s@ == seq!['e', 'v', 'e', 'n', 't'],
                MediaKind::Custom(id) => s == id,
            },
    {
        match self {
            MediaKind::AnimationClip => {
                let s = "animation-clip";
                proof {
                    reveal_strlit("animation-clip");
                }
                s
            },
            MediaKind::AudioClip => {
                let s = "audio-clip";
                proof {
                    reveal_strlit("audio-clip");
                }
                s
            },
            MediaKind::UiMotion => {
                let s = "ui-motion";
                proof {
                    reveal_strlit("ui-motion");
                }
                s
            },
            MediaKind::VfxEvent => {
                let s = "vfx-event";
                proof {
                    reveal_strlit("vfx-event");
                }
                s
            },
            MediaKind::Event => {
                let s = "event";
                proof {
                    reveal_strlit("event");
                }
                s
            },
            MediaKind::Custom(id) => id,
        }
    }
}

} // verus!
