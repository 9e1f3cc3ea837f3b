//! Text: paragraph direction, decorations, font fallback, IME composition,
//! localisation keys and markup values.
//!
//! The run model (a byte range into a source string plus its style) is what
//! a shaper shapes, a fallback chain annotates and the draw layer emits.
//! Its sizes and motions are floating-point and live with the draw layer;
//! what is decided on plain values is here.

pub mod compose;
pub mod fallback;
pub mod ime;
pub mod localize;
pub mod markup;
pub mod encoding;

use vstd::prelude::*;
use vstd::std_specs::iter::IteratorSpec;

verus! {

/// Writing direction for a paragraph or a run.
#[derive(Clone, Copy, Debug, PartialEq, Eq, Structural)]
pub enum Direction {
    /// Left to right. Latin, CJK, Devanagari.
    Ltr,
    /// Right to left. Arabic, Hebrew.
    Rtl,
}

impl Default for Direction {
    fn default() -> (d: Self)
        ensures
            d == Direction::Ltr,
    {
        Direction::Ltr
    }
}

/// The direction a character is strong in, if any.
///
/// Hebrew, Arabic, Syriac, Thaana, N'Ko, Samaritan and the Arabic
/// presentation forms are strong right-to-left; the letters of Latin
/// (ASCII, Latin-1 and the extensions through the modifier letters),
/// Greek, Cyrillic and Armenian, and CJK, Hangul and Devanagari are strong
/// left-to-right; digits, punctuation, symbols, combining marks and
/// everything else are neutral.
pub open spec fn strong_direction(c: u32) -> Option<Direction> {
    if 0x0590 <= c <= 0x08FF {
        Some(Direction::Rtl)
    } else if (0xFB1D <= c <= 0xFDFF) || (0xFE70 <= c <= 0xFEFF) {
        Some(Direction::Rtl)
    } else if (0x0041 <= c <= 0x005A) || (0x0061 <= c <= 0x007A) || c == 0x00AA || c == 0x00B5 || c == 0x00BA
        || (0x00C0 <= c <= 0x00D6) || (0x00D8 <= c <= 0x00F6) || (0x00F8 <= c <= 0x02B8) || (0x0370 <= c <= 0x058F)
        || (0x0900 <= c <= 0x1FFF) || (0x2C00 <= c <= 0xD7FF) || (0xF900 <= c <= 0xFB17) || (0xFF00 <= c
        <= 0xFFEF) {
        Some(Direction::Ltr)
    } else {
        None
    }
}

/// The direction of the first strong character, or left-to-right if there
/// is none.
pub open spec fn paragraph_direction(s: Seq<char>) -> Direction
    decreases s.len(),
{
    if s.len() == 0 {
        Direction::Ltr
    } else {
        match strong_direction(s[0] as u32) {
            Some(d) => d,
            None => paragraph_direction(s.drop_first()),
        }
    }
}

/// Only letters are strong: an ASCII character that is not a letter (a
/// digit, a space, punctuation or a symbol) never decides a paragraph's
/// direction.
pub proof fn lemma_ascii_non_letters_are_neutral(c: u32)
    requires
        c < 0x80,
        !(0x41 <= c <= 0x5A),
        !(0x61 <= c <= 0x7A),
    ensures
        strong_direction(c) is None,
{
}

fn strong_direction_exec(c: u32) -> (d: Option<Direction>)
    ensures
        d == strong_direction(c),
{
    if 0x0590 <= c && c <= 0x08FF {
        Some(Direction::Rtl)
    } else if (0xFB1D <= c && c <= 0xFDFF) || (0xFE70 <= c && c <= 0xFEFF) {
        Some(Direction::Rtl)
    } else if (0x0041 <= c && c <= 0x005A) || (0x0061 <= c && c <= 0x007A) || c == 0x00AA || c == 0x00B5
        || c == 0x00BA || (0x00C0 <= c && c <= 0x00D6) || (0x00D8 <= c && c <= 0x00F6) || (0x00F8 <= c && c
        <= 0x02B8) || (0x0370 <= c && c <= 0x058F) || (0x0900 <= c && c <= 0x1FFF) || (0x2C00 <= c && c
        <= 0xD7FF) || (0xF900 <= c && c <= 0xFB17) || (0xFF00 <= c && c <= 0xFFEF) {
        Some(Direction::Ltr)
    } else {
        None
    }
}

impl Direction {
    /// Guess a paragraph's base direction from its first strong character.
    ///
    /// The base-direction rule of the bidi algorithm, reduced to the ranges
    /// that matter; not the reordering algorithm itself.
    pub fn of_paragraph(text: &str) -> (d: Direction)
        ensures
            d == paragraph_direction(text@),
    {
        broadcast use vstd::string::group_string_axioms;

        let mut chars = text.chars();
        let ghost mut seen: int = 0;
        assert(text@.skip(0) =~= text@);
        loop
            invariant
                0 <= seen <= text@.len(),
                chars.remaining() == text@.skip(seen),
                paragraph_direction(text@) == paragraph_direction(text@.skip(seen)),
            decreases text@.len() - seen,
        {
            match chars.next() {
                Some(ch) => {
                    proof {
                        assert(text@.skip(seen).drop_first() =~= text@.skip(seen + 1));
                        seen = seen + 1;
                    }
                    if let Some(d) = strong_direction_exec(ch as u32) {
                        return d;
                    }
                },
                None => {
                    return Direction::Ltr;
                },
            }
        }
    }

    /// Whether this is right-to-left.
    pub fn is_rtl(self) -> (b: bool)
        ensures
            b == (self is Rtl),
    {
        matches!(self, Direction::Rtl)
    }
}

/// A decoration applied to a run.
#[derive(Clone, Copy, Debug, PartialEq, Eq, Structural)]
pub struct Decoration {
    pub bold: bool,
    pub italic: bool,
    pub underline: bool,
    pub strikethrough: bool,
}

impl Default for Decoration {
    fn default() -> (d: Self)
        ensures
            !d.bold && !d.italic && !d.underline && !d.strikethrough,
    {
        Decoration { bold: false, italic: false, underline: false, strikethrough: false }
    }
}

/// Whether the shaper is enabled.
///
/// Default off: turning it on changes every glyph position, and there is no
/// golden reference yet to compare the result against.
#[derive(Clone, Copy, Debug, PartialEq, Eq, Structural)]
pub enum ShaperPolicy {
    /// Per-character advances, block-origin snapped.
    PerCharacter,
    /// Shaped runs. Not implemented: selecting it behaves as
    /// `PerCharacter`, and `is_available` says so.
    Shaped,
}

impl Default for ShaperPolicy {
    fn default() -> (p: Self)
        ensures
            p == ShaperPolicy::PerCharacter,
    {
        ShaperPolicy::PerCharacter
    }
}

impl ShaperPolicy {
    /// Whether shaping is actually available. Always `false` today.
    pub fn is_available(self) -> (b: bool)
        ensures
            !b,
    {
        false
    }
}

} // verus!
