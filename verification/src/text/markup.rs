//! Rich-text markup values.
//!
//! Markup is BBCode-shaped: `[b]bold[/b]`, `[color=#f80]`, `[font=mono]`.
//! Parsing strips the tags and returns the plain text with the runs that
//! style it, their ranges indexing the plain text. Sizes and motions are
//! floating-point numbers read from tag values; the caller reads them (see
//! `markup_tags` and `TagReading`) and they travel here as the bits of the
//! `f32`s they are.

use vstd::prelude::*;
use vstd::std_specs::iter::IteratorSpec;
use vstd::string::StringSliceAdditionalSpecFns;
use crate::text::compose::{decimal, Composer};
use crate::text::encoding::{char_len_utf8, lemma_encode_utf8_prefix_len, lemma_encode_utf8_push, str_equals};
use core::ops::Range;
use crate::text::Decoration;
use crate::typography::FontRole;
use vstd::utf8::encode_utf8;

verus! {

broadcast use vstd::slice::group_slice_axioms;

/// Why a markup string could not be parsed. Every variant carries the byte
/// offset of the offending tag.
#[derive(Clone, Debug, PartialEq, Eq)]
pub enum MarkupError {
    /// A `[/tag]` with no matching open tag.
    Unmatched { at: usize, tag: String },
    /// A tag that needed a value and had none, or an unusable one.
    BadValue { at: usize, tag: String },
    /// End of input with tags still open.
    Unclosed { at: usize, tag: String },
}

/// What a markup error says.
pub open spec fn markup_error_text(e: MarkupError) -> Seq<char> {
    match e {
        MarkupError::Unmatched { at, tag } => "byte "@ + decimal(at as nat) + ": `[/"@ + tag@ + "]` closes nothing"@,
        MarkupError::BadValue { at, tag } => "byte "@ + decimal(at as nat) + ": `["@ + tag@ + "]` has a bad value"@,
        MarkupError::Unclosed { at, tag } => "byte "@ + decimal(at as nat) + ": `["@ + tag@ + "]` was never closed"@,
    }
}

impl MarkupError {
    /// What went wrong, and where, for people.
    pub fn message(&self) -> (s: String)
        ensures
            s@ == markup_error_text(*self),
    {
        let start = Composer::new().push_str("byte ");
        assert(Seq::<char>::empty() + "byte "@ =~= "byte "@);
        let c = match self {
            MarkupError::Unmatched { at, tag } => start.push_number(*at as u64).push_str(": `[/").push_str(
                tag.as_str(),
            ).push_str("]` closes nothing"),
            MarkupError::BadValue { at, tag } => start.push_number(*at as u64).push_str(": `[").push_str(
                tag.as_str(),
            ).push_str("]` has a bad value"),
            MarkupError::Unclosed { at, tag } => start.push_number(*at as u64).push_str(": `[").push_str(
                tag.as_str(),
            ).push_str("]` was never closed"),
        };
        c.finish()
    }
}

/// The character an inline sprite occupies: U+FFFC OBJECT REPLACEMENT
/// CHARACTER, so a caret steps over a sprite as exactly one character.
pub const SPRITE_PLACEHOLDER: char = '\u{FFFC}';

/// The value of one hexadecimal digit.
pub open spec fn hex_digit(c: u8) -> Option<u8> {
    if 0x30 <= c <= 0x39 {
        Some((c - 0x30) as u8)
    } else if 0x61 <= c <= 0x66 {
        Some((c - 0x61 + 10) as u8)
    } else if 0x41 <= c <= 0x46 {
        Some((c - 0x41 + 10) as u8)
    } else {
        None
    }
}

/// A base-16 number of one or two bytes, read the way the standard
/// library's `u8::from_str_radix(_, 16)` reads it: an optional leading `+`
/// followed by at least one digit, and nothing else.
pub open spec fn hex_number(digits: Seq<u8>) -> Option<u8> {
    if digits.len() == 1 {
        hex_digit(digits[0])
    } else if digits.len() == 2 {
        if digits[0] == 0x2B {
            hex_digit(digits[1])
        } else {
            match (hex_digit(digits[0]), hex_digit(digits[1])) {
                (Some(hi), Some(lo)) => Some((hi * 16 + lo) as u8),
                _ => None,
            }
        }
    } else {
        None
    }
}

/// Whether `b` continues a multi-byte UTF-8 character.
pub open spec fn continues_char(b: u8) -> bool {
    0x80 <= b < 0xC0
}

/// The digits of a colour value: the value's bytes without one leading `#`.
pub open spec fn color_digits(value: Seq<u8>) -> Seq<u8> {
    if value.len() > 0 && value[0] == 0x23 {
        value.skip(1)
    } else {
        value
    }
}

/// The colour a `[color=]` value names: `#rgb`, `#rrggbb` or `#rrggbbaa`,
/// the `#` optional. A short form repeats each nibble, so `#f00` is
/// `#ff0000`.
pub open spec fn color_of(value: Seq<u8>) -> Option<[u8; 4]> {
    let h = color_digits(value);
    if h.len() == 3 {
        match (hex_number(h.subrange(0, 1)), hex_number(h.subrange(1, 2)), hex_number(h.subrange(2, 3))) {
            (Some(r), Some(g), Some(b)) => Some([(r * 17) as u8, (g * 17) as u8, (b * 17) as u8, 255u8]),
            _ => None,
        }
    } else if h.len() == 6 {
        match (hex_number(h.subrange(0, 2)), hex_number(h.subrange(2, 4)), hex_number(h.subrange(4, 6))) {
            (Some(r), Some(g), Some(b)) => Some([r, g, b, 255u8]),
            _ => None,
        }
    } else if h.len() == 8 {
        match (
            hex_number(h.subrange(0, 2)),
            hex_number(h.subrange(2, 4)),
            hex_number(h.subrange(4, 6)),
            hex_number(h.subrange(6, 8)),
        ) {
            (Some(r), Some(g), Some(b), Some(a)) => Some([r, g, b, a]),
            _ => None,
        }
    } else {
        None
    }
}

/// Whether reading the colour would cut a multi-byte character in two.
///
/// The digits are read by slicing the value into one- or two-byte pieces in
/// order, stopping at the first piece that is not a number; a piece whose
/// end falls inside a character cannot be sliced at all.
pub open spec fn color_cuts_a_char(value: Seq<u8>) -> bool {
    let h = color_digits(value);
    if h.len() == 3 {
        continues_char(h[1]) || (hex_number(h.subrange(0, 1)) is Some && continues_char(h[2]))
    } else if h.len() == 6 {
        continues_char(h[2]) || (hex_number(h.subrange(0, 2)) is Some && continues_char(h[4]))
    } else if h.len() == 8 {
        ||| continues_char(h[2])
        ||| hex_number(h.subrange(0, 2)) is Some && continues_char(h[4])
        ||| hex_number(h.subrange(0, 2)) is Some && hex_number(h.subrange(2, 4)) is Some
            && continues_char(h[6])
    } else {
        false
    }
}

fn hex_digit_exec(c: u8) -> (d: Option<u8>)
    ensures
        d == hex_digit(c),
{
    if 0x30 <= c && c <= 0x39 {
        Some(c - 0x30)
    } else if 0x61 <= c && c <= 0x66 {
        Some(c - 0x61 + 10)
    } else if 0x41 <= c && c <= 0x46 {
        Some(c - 0x41 + 10)
    } else {
        None
    }
}

/// The number held by `len` bytes of `bytes` starting at `at`.
fn hex_number_at(bytes: &[u8], at: usize, len: usize) -> (n: Option<u8>)
    requires
        len == 1 || len == 2,
        at + len <= bytes@.len(),
    ensures
        n == hex_number(bytes@.subrange(at as int, at + len)),
{
    if len == 1 {
        hex_digit_exec(bytes[at])
    } else if bytes[at] == 0x2B {
        hex_digit_exec(bytes[at + 1])
    } else {
        match (hex_digit_exec(bytes[at]), hex_digit_exec(bytes[at + 1])) {
            (Some(hi), Some(lo)) => Some(hi * 16 + lo),
            _ => None,
        }
    }
}

/// Whether `b` continues a multi-byte UTF-8 character.
fn continues_char_exec(b: u8) -> (r: bool)
    ensures
        r == continues_char(b),
{
    0x80 <= b && b < 0xC0
}

/// Whether reading `value` as a colour would cut a multi-byte character in
/// two, which slicing text refuses: `parse_color` takes only values for
/// which this is false.
pub fn color_would_cut_a_char(value: &str) -> (r: bool)
    ensures
        r == color_cuts_a_char(value.spec_bytes()),
{
    let bytes = value.as_bytes();
    let start: usize = if bytes.len() > 0 && bytes[0] == 0x23 { 1 } else { 0 };
    let len = bytes.len() - start;
    let ghost h = color_digits(bytes@);
    proof {
        assert(h =~= bytes@.subrange(start as int, bytes@.len() as int));
        assert forall|i: int, j: int| 0 <= i <= j <= len implies #[trigger] h.subrange(i, j)
            =~= bytes@.subrange(start + i, start + j) by {}
    }
    if len == 3 {
        continues_char_exec(bytes[start + 1]) || (hex_number_at(bytes, start, 1).is_some()
            && continues_char_exec(bytes[start + 2]))
    } else if len == 6 {
        continues_char_exec(bytes[start + 2]) || (hex_number_at(bytes, start, 2).is_some()
            && continues_char_exec(bytes[start + 4]))
    } else if len == 8 {
        let first = hex_number_at(bytes, start, 2).is_some();
        continues_char_exec(bytes[start + 2]) || (first && continues_char_exec(bytes[start + 4])) || (
        first && hex_number_at(bytes, start + 2, 2).is_some() && continues_char_exec(bytes[start + 6]))
    } else {
        false
    }
}

/// Parse a `[color=]` value: `#rgb`, `#rrggbb` or `#rrggbbaa`, the leading
/// `#` optional.
pub fn parse_color(value: &str) -> (color: Option<[u8; 4]>)
    requires
        !color_cuts_a_char(value.spec_bytes()),
    ensures
        color == color_of(value.spec_bytes()),
{
    let bytes = value.as_bytes();
    let start: usize = if bytes.len() > 0 && bytes[0] == 0x23 { 1 } else { 0 };
    let len = bytes.len() - start;
    let ghost h = color_digits(bytes@);
    proof {
        assert(h =~= bytes@.subrange(start as int, bytes@.len() as int));
        assert forall|i: int, j: int| 0 <= i <= j <= len implies #[trigger] h.subrange(i, j)
            =~= bytes@.subrange(start + i, start + j) by {}
    }
    if len == 3 {
        let r = match hex_number_at(bytes, start, 1) { Some(v) => v, None => return None };
        let g = match hex_number_at(bytes, start + 1, 1) { Some(v) => v, None => return None };
        let b = match hex_number_at(bytes, start + 2, 1) { Some(v) => v, None => return None };
        Some([r * 17, g * 17, b * 17, 255])
    } else if len == 6 {
        let r = match hex_number_at(bytes, start, 2) { Some(v) => v, None => return None };
        let g = match hex_number_at(bytes, start + 2, 2) { Some(v) => v, None => return None };
        let b = match hex_number_at(bytes, start + 4, 2) { Some(v) => v, None => return None };
        Some([r, g, b, 255])
    } else if len == 8 {
        let r = match hex_number_at(bytes, start, 2) { Some(v) => v, None => return None };
        let g = match hex_number_at(bytes, start + 2, 2) { Some(v) => v, None => return None };
        let b = match hex_number_at(bytes, start + 4, 2) { Some(v) => v, None => return None };
        let a = match hex_number_at(bytes, start + 6, 2) { Some(v) => v, None => return None };
        Some([r, g, b, a])
    } else {
        None
    }
}

/// The font role a `[font=]` value names, if any.
///
/// Names rather than weights: the five bundled cuts are a role vocabulary,
/// and `[b]` is how a run gets bolder.
pub open spec fn role_named(value: Seq<char>) -> Option<FontRole> {
    if value == "ui"@ || value == "sans"@ || value == "regular"@ {
        Some(FontRole::UiRegular)
    } else if value == "medium"@ {
        Some(FontRole::UiMedium)
    } else if value == "semibold"@ || value == "heading"@ {
        Some(FontRole::UiSemiBold)
    } else if value == "mono"@ || value == "code"@ {
        Some(FontRole::Mono)
    } else if value == "mono-medium"@ {
        Some(FontRole::MonoMedium)
    } else {
        None
    }
}

/// Map a `[font=]` value onto one of the five bundled cuts.
pub fn parse_role(value: &str) -> (role: Option<FontRole>)
    ensures
        role == role_named(value@),
{
    if str_equals(value, "ui") || str_equals(value, "sans") || str_equals(value, "regular") {
        Some(FontRole::UiRegular)
    } else if str_equals(value, "medium") {
        Some(FontRole::UiMedium)
    } else if str_equals(value, "semibold") || str_equals(value, "heading") {
        Some(FontRole::UiSemiBold)
    } else if str_equals(value, "mono") || str_equals(value, "code") {
        Some(FontRole::Mono)
    } else if str_equals(value, "mono-medium") {
        Some(FontRole::MonoMedium)
    } else {
        None
    }
}

// ---------------------------------------------------------------------------
// Scanning
// ---------------------------------------------------------------------------

/// Whether `c` has Unicode's White_Space property, which is what
/// `char::is_whitespace`, and so `str::trim`, strips.
pub open spec fn is_white(c: char) -> bool {
    ||| '\u{9}' <= c <= '\u{D}'
    ||| c == ' '
    ||| c == '\u{85}'
    ||| c == '\u{A0}'
    ||| c == '\u{1680}'
    ||| '\u{2000}' <= c <= '\u{200A}'
    ||| c == '\u{2028}'
    ||| c == '\u{2029}'
    ||| c == '\u{202F}'
    ||| c == '\u{205F}'
    ||| c == '\u{3000}'
}

/// Where `m[lo..hi]` starts once leading white space is stripped.
pub open spec fn trim_start(m: Seq<char>, lo: int, hi: int) -> int
    decreases hi - lo,
{
    if lo < hi && is_white(m[lo]) {
        trim_start(m, lo + 1, hi)
    } else {
        lo
    }
}

/// Where `m[lo..hi]` ends once trailing white space is stripped.
pub open spec fn trim_end(m: Seq<char>, lo: int, hi: int) -> int
    decreases hi - lo,
{
    if lo < hi && is_white(m[hi - 1]) {
        trim_end(m, lo, hi - 1)
    } else {
        hi
    }
}

/// `m[lo..hi]` with white space stripped from both ends, as a range.
pub open spec fn trimmed(m: Seq<char>, lo: int, hi: int) -> (int, int) {
    let a = trim_start(m, lo, hi);
    (a, trim_end(m, a, hi))
}

/// The first position at or after `from`, and before `hi`, holding `c`.
pub open spec fn first_of(m: Seq<char>, from: int, hi: int, c: char) -> Option<int>
    decreases hi - from,
{
    if from >= hi {
        None
    } else if m[from] == c {
        Some(from)
    } else {
        first_of(m, from + 1, hi, c)
    }
}

/// What starts at a position of the markup.
pub enum Piece {
    /// A character that stands for itself: anything but `[`, or a `[` that
    /// no `]` follows.
    Plain,
    /// `[[`, which stands for a `[`.
    Escape,
    /// A closing tag `[/name]`, up to `end`.
    Close { name: (int, int), end: int },
    /// An opening tag `[name]` or `[name=value]`, up to `end`.
    Open { name: (int, int), value: Option<(int, int)>, end: int },
}

/// What starts at position `i`. Names and values are trimmed ranges of `m`.
pub open spec fn piece_at(m: Seq<char>, i: int) -> Piece {
    if m[i] != '[' {
        Piece::Plain
    } else if i + 1 < m.len() && m[i + 1] == '[' {
        Piece::Escape
    } else {
        match first_of(m, i, m.len() as int, ']') {
            None => Piece::Plain,
            Some(c) => if i + 1 < c && m[i + 1] == '/' {
                Piece::Close { name: trimmed(m, i + 2, c), end: c + 1 }
            } else {
                match first_of(m, i + 1, c, '=') {
                    Some(e) => Piece::Open {
                        name: trimmed(m, i + 1, e),
                        value: Some(trimmed(m, e + 1, c)),
                        end: c + 1,
                    },
                    None => Piece::Open { name: trimmed(m, i + 1, c), value: None, end: c + 1 },
                }
            },
        }
    }
}

/// Where the scan goes after position `i`.
pub open spec fn next_position(m: Seq<char>, i: int) -> int {
    match piece_at(m, i) {
        Piece::Plain => i + 1,
        Piece::Escape => i + 2,
        Piece::Close { end, .. } => end,
        Piece::Open { end, .. } => end,
    }
}

/// The characters `m[r.0..r.1]`.
pub open spec fn chars_of(m: Seq<char>, r: (int, int)) -> Seq<char> {
    m.subrange(r.0, r.1)
}

/// The opening tags from position `i` on, in order, each with its name and
/// value: what the caller reads numbers from.
pub open spec fn open_tags_from(m: Seq<char>, i: int) -> Seq<(Seq<char>, Option<Seq<char>>)>
    decreases m.len() - i,
{
    if i < 0 || i >= m.len() || next_position(m, i) <= i || next_position(m, i) > m.len() {
        Seq::empty()
    } else {
        let rest = open_tags_from(m, next_position(m, i));
        match piece_at(m, i) {
            Piece::Open { name, value, .. } => seq![
                (
                    chars_of(m, name),
                    match value {
                        Some(v) => Some(chars_of(m, v)),
                        None => None,
                    },
                ),
            ] + rest,
            _ => rest,
        }
    }
}

// ---------------------------------------------------------------------------
// Styles
// ---------------------------------------------------------------------------

/// A per-run animation, its numbers as the bits of the `f32`s they are.
#[derive(Clone, Copy, Debug, PartialEq, Eq, Structural)]
pub enum MotionBits {
    /// No animation.
    Still,
    /// Vertical sine: amplitude in pixels, frequency in cycles per second.
    Wave { amplitude: u32, frequency: u32 },
    /// Random per-glyph jitter within an amplitude in pixels.
    Shake { amplitude: u32 },
}

/// What the caller read of an opening tag's numbers, as `f32` bits:
/// for `size`, the value when it reads as a number above zero; for
/// `wave`, its amplitude and frequency, defaults filled in; for `shake`,
/// its amplitude, default filled in. `Nothing` for every other tag.
#[derive(Clone, Copy, Debug, PartialEq, Eq, Structural)]
pub enum TagReading {
    Nothing,
    Size(Option<u32>),
    Wave { amplitude: u32, frequency: u32 },
    Shake { amplitude: u32 },
}

/// The style a run carries, its numbers as `f32` bits.
#[derive(Clone, Debug)]
pub struct RunStyle {
    /// Authored sRGB, straight alpha; `None` inherits.
    pub color: Option<[u8; 4]>,
    /// Size in logical pixels, as `f32` bits; `None` inherits.
    pub size: Option<u32>,
    /// Which face; `None` inherits.
    pub role: Option<FontRole>,
    pub decoration: Decoration,
    pub motion: MotionBits,
    /// A link target; present makes the run interactive.
    pub link: Option<String>,
}

/// A run style with its link as characters.
pub struct StyleView {
    pub color: Option<[u8; 4]>,
    pub size: Option<u32>,
    pub role: Option<FontRole>,
    pub decoration: Decoration,
    pub motion: MotionBits,
    pub link: Option<Seq<char>>,
}

impl View for RunStyle {
    type V = StyleView;

    open spec fn view(&self) -> StyleView {
        StyleView {
            color: self.color,
            size: self.size,
            role: self.role,
            decoration: self.decoration,
            motion: self.motion,
            link: match self.link {
                Some(l) => Some(l@),
                None => None,
            },
        }
    }
}

/// The unstyled style: everything inherited.
pub open spec fn plain_style() -> StyleView {
    StyleView {
        color: None,
        size: None,
        role: None,
        decoration: Decoration { bold: false, italic: false, underline: false, strikethrough: false },
        motion: MotionBits::Still,
        link: None,
    }
}

/// Whether `f32` bits are a NaN.
pub open spec fn is_nan_bits(b: u32) -> bool {
    (b & 0x7F80_0000) == 0x7F80_0000 && (b & 0x007F_FFFF) != 0
}

/// `==` on the `f32`s two bit patterns are: no NaN equals anything, and
/// the two zeros are equal.
pub open spec fn float_eq(a: u32, b: u32) -> bool {
    !is_nan_bits(a) && !is_nan_bits(b) && (a == b || ((a | b) & 0x7FFF_FFFF) == 0)
}

/// `==` on optional sizes.
pub open spec fn size_eq(a: Option<u32>, b: Option<u32>) -> bool {
    match (a, b) {
        (None, None) => true,
        (Some(x), Some(y)) => float_eq(x, y),
        _ => false,
    }
}

/// `==` on motions.
pub open spec fn motion_eq(a: MotionBits, b: MotionBits) -> bool {
    match (a, b) {
        (MotionBits::Still, MotionBits::Still) => true,
        (MotionBits::Wave { amplitude: a1, frequency: f1 }, MotionBits::Wave { amplitude: a2, frequency: f2 }) =>
            float_eq(a1, a2) && float_eq(f1, f2),
        (MotionBits::Shake { amplitude: a1 }, MotionBits::Shake { amplitude: a2 }) => float_eq(a1, a2),
        _ => false,
    }
}

/// `==` on styles, with the numbers compared as the floats they are.
pub open spec fn style_eq(a: StyleView, b: StyleView) -> bool {
    &&& a.color == b.color
    &&& size_eq(a.size, b.size)
    &&& a.role == b.role
    &&& a.decoration == b.decoration
    &&& motion_eq(a.motion, b.motion)
    &&& a.link == b.link
}

/// What one opening tag does to a style: the new style, or `None` for a
/// tag this vocabulary does not know or a value it cannot use.
pub open spec fn applied(style: StyleView, name: Seq<char>, value: Option<Seq<char>>, reading: TagReading) -> Option<StyleView> {
    let d = style.decoration;
    if name == "b"@ {
        Some(StyleView { decoration: Decoration { bold: true, ..d }, ..style })
    } else if name == "i"@ {
        Some(StyleView { decoration: Decoration { italic: true, ..d }, ..style })
    } else if name == "u"@ {
        Some(StyleView { decoration: Decoration { underline: true, ..d }, ..style })
    } else if name == "s"@ {
        Some(StyleView { decoration: Decoration { strikethrough: true, ..d }, ..style })
    } else if name == "color"@ {
        match value {
            Some(v) => match color_of(encode_utf8(v)) {
                Some(c) => Some(StyleView { color: Some(c), ..style }),
                None => None,
            },
            None => None,
        }
    } else if name == "size"@ {
        match reading {
            TagReading::Size(Some(px)) => Some(StyleView { size: Some(px), ..style }),
            _ => None,
        }
    } else if name == "font"@ {
        match value {
            Some(v) => match role_named(v) {
                Some(r) => Some(StyleView { role: Some(r), ..style }),
                None => None,
            },
            None => None,
        }
    } else if name == "link"@ {
        match value {
            Some(v) => if v.len() > 0 {
                Some(StyleView { link: Some(v), ..style })
            } else {
                None
            },
            None => None,
        }
    } else if name == "wave"@ {
        match reading {
            TagReading::Wave { amplitude, frequency } => Some(
                StyleView { motion: MotionBits::Wave { amplitude, frequency }, ..style },
            ),
            _ => None,
        }
    } else if name == "shake"@ {
        match reading {
            TagReading::Shake { amplitude } => Some(StyleView { motion: MotionBits::Shake { amplitude }, ..style }),
            _ => None,
        }
    } else {
        None
    }
}

/// Whether applying the tag would read a colour whose pieces cut a
/// character, which slicing text refuses.
pub open spec fn cuts_a_char(name: Seq<char>, value: Option<Seq<char>>) -> bool {
    name == "color"@ && match value {
        Some(v) => color_cuts_a_char(encode_utf8(v)),
        None => false,
    }
}

// ---------------------------------------------------------------------------
// Parsing
// ---------------------------------------------------------------------------

/// A run of the stripped text: a byte range of it, its style, and the
/// sprite drawn in place of its text, if any.
pub struct RunView {
    pub start: nat,
    pub end: nat,
    pub style: StyleView,
    pub sprite: Option<Seq<char>>,
}

/// A tag still open: its name, where it stands in the markup (in bytes),
/// the style in force before it, and whether it was kept as literal text.
pub struct OpenView {
    pub tag: Seq<char>,
    pub at: nat,
    pub previous: StyleView,
    pub literal: bool,
}

/// A markup error, with its tag as characters.
pub enum ErrorView {
    Unmatched { at: nat, tag: Seq<char> },
    BadValue { at: nat, tag: Seq<char> },
    Unclosed { at: nat, tag: Seq<char> },
}

impl View for MarkupError {
    type V = ErrorView;

    open spec fn view(&self) -> ErrorView {
        match self {
            MarkupError::Unmatched { at, tag } => ErrorView::Unmatched { at: *at as nat, tag: tag@ },
            MarkupError::BadValue { at, tag } => ErrorView::BadValue { at: *at as nat, tag: tag@ },
            MarkupError::Unclosed { at, tag } => ErrorView::Unclosed { at: *at as nat, tag: tag@ },
        }
    }
}

/// Where a parse stands: the position in the markup (in characters), the
/// stripped text so far, the runs closed so far, the open tags, the style
/// in force, where the current run starts (in bytes of the text), and how
/// many opening tags have been met.
#[verifier::ext_equal]
pub struct ScanState {
    pub i: int,
    pub text: Seq<char>,
    pub runs: Seq<RunView>,
    pub stack: Seq<OpenView>,
    pub style: StyleView,
    pub run_start: nat,
    pub tags: nat,
}

/// How a parse ends: the stripped text and its runs; an error; or a colour
/// value whose pieces would cut a character, which slicing text refuses.
pub enum Outcome {
    Parsed { text: Seq<char>, runs: Seq<RunView> },
    Failed(ErrorView),
    ColourCut,
}

/// One step of a parse: where it goes next, or how it ends.
pub enum Step {
    Next(ScanState),
    Done(Outcome),
}

/// How many bytes `t` takes in UTF-8.
pub open spec fn byte_len(t: Seq<char>) -> nat {
    encode_utf8(t).len()
}

/// The reading of opening tag `k`; none past the end of `readings`.
pub open spec fn reading_at(readings: Seq<TagReading>, k: nat) -> TagReading {
    if k < readings.len() {
        readings[k as int]
    } else {
        TagReading::Nothing
    }
}

/// `st` with the current run closed at byte `end` in `style`, unless it
/// would be empty.
pub open spec fn flushed(st: ScanState, end: nat, style: StyleView) -> ScanState {
    ScanState {
        runs: if end > st.run_start {
            st.runs.push(RunView { start: st.run_start, end, style, sprite: None })
        } else {
            st.runs
        },
        run_start: end,
        ..st
    }
}

/// The innermost open tag that styles, if any.
pub open spec fn innermost_styling(stack: Seq<OpenView>) -> Option<OpenView>
    decreases stack.len(),
{
    if stack.len() == 0 {
        None
    } else if !stack.last().literal {
        Some(stack.last())
    } else {
        innermost_styling(stack.drop_last())
    }
}

/// How a parse ends when the markup is used up: a styling tag left open is
/// an error, naming the innermost; otherwise the last run is closed.
pub open spec fn finished(st: ScanState) -> Outcome {
    match innermost_styling(st.stack) {
        Some(open) => Outcome::Failed(ErrorView::Unclosed { at: open.at, tag: open.tag }),
        None => Outcome::Parsed {
            text: st.text,
            runs: flushed(st, byte_len(st.text), st.style).runs,
        },
    }
}

/// What the piece at `st.i` does. Stripped text gains ordinary
/// characters, `[` for `[[`, and tags this vocabulary does not know, which
/// stay as literal text with their closing tags; styling tags close the
/// run before them and open a scope their closing tag ends; a sprite is one
/// placeholder character in a run of its own.
pub open spec fn step(m: Seq<char>, readings: Seq<TagReading>, st: ScanState) -> Step {
    let i = st.i;
    let at = byte_len(m.take(i));
    match piece_at(m, i) {
        Piece::Plain => Step::Next(ScanState { i: i + 1, text: st.text.push(m[i]), ..st }),
        Piece::Escape => Step::Next(ScanState { i: i + 2, text: st.text.push('['), ..st }),
        Piece::Close { name, end } => {
            let n = chars_of(m, name);
            if st.stack.len() == 0 || st.stack.last().tag != n {
                Step::Done(Outcome::Failed(ErrorView::Unmatched { at, tag: n }))
            } else if st.stack.last().literal {
                Step::Next(
                    ScanState { i: end, text: st.text + m.subrange(i, end), stack: st.stack.drop_last(), ..st },
                )
            } else {
                let f = flushed(st, byte_len(st.text), st.style);
                Step::Next(ScanState { i: end, stack: st.stack.drop_last(), style: st.stack.last().previous, ..f })
            }
        },
        Piece::Open { name, value, end } => {
            let n = chars_of(m, name);
            let v = match value {
                Some(r) => Some(chars_of(m, r)),
                None => None,
            };
            if n == "sprite"@ {
                match v {
                    Some(sprite) => if sprite.len() > 0 {
                        let f = flushed(st, byte_len(st.text), st.style);
                        let text = st.text.push(SPRITE_PLACEHOLDER);
                        Step::Next(
                            ScanState {
                                i: end,
                                text,
                                runs: f.runs.push(
                                    RunView {
                                        start: byte_len(st.text),
                                        end: byte_len(text),
                                        style: st.style,
                                        sprite: Some(sprite),
                                    },
                                ),
                                run_start: byte_len(text),
                                tags: st.tags + 1,
                                ..st
                            },
                        )
                    } else {
                        Step::Done(Outcome::Failed(ErrorView::BadValue { at, tag: n }))
                    },
                    None => Step::Done(Outcome::Failed(ErrorView::BadValue { at, tag: n })),
                }
            } else if cuts_a_char(n, v) {
                Step::Done(Outcome::ColourCut)
            } else {
                let open = OpenView { tag: n, at, previous: st.style, literal: false };
                match applied(st.style, n, v, reading_at(readings, st.tags)) {
                    None => Step::Next(
                        ScanState {
                            i: end,
                            text: st.text + m.subrange(i, end),
                            stack: st.stack.push(OpenView { literal: true, ..open }),
                            tags: st.tags + 1,
                            ..st
                        },
                    ),
                    Some(style) => if style_eq(style, st.style) {
                        Step::Next(ScanState { i: end, stack: st.stack.push(open), style, tags: st.tags + 1, ..st })
                    } else {
                        let f = flushed(st, byte_len(st.text), st.style);
                        Step::Next(ScanState { i: end, stack: st.stack.push(open), style, tags: st.tags + 1, ..f })
                    },
                }
            }
        },
    }
}

/// How a parse from `st` ends.
pub open spec fn outcome_from(m: Seq<char>, readings: Seq<TagReading>, st: ScanState) -> Outcome
    decreases m.len() - st.i,
{
    if st.i < 0 || st.i >= m.len() {
        finished(st)
    } else {
        match step(m, readings, st) {
            Step::Done(outcome) => outcome,
            Step::Next(next) => if st.i < next.i <= m.len() {
                outcome_from(m, readings, next)
            } else {
                Outcome::ColourCut
            },
        }
    }
}

/// A parse before anything is read.
pub open spec fn start_state() -> ScanState {
    ScanState {
        i: 0,
        text: Seq::empty(),
        runs: Seq::empty(),
        stack: Seq::empty(),
        style: plain_style(),
        run_start: 0,
        tags: 0,
    }
}

/// How parsing `m` ends, given the readings of its opening tags' numbers.
pub open spec fn parse_outcome(m: Seq<char>, readings: Seq<TagReading>) -> Outcome {
    outcome_from(m, readings, start_state())
}

// ---------------------------------------------------------------------------
// Scanning, executed
// ---------------------------------------------------------------------------

fn is_white_exec(c: char) -> (b: bool)
    ensures
        b == is_white(c),
{
    ('\u{9}' <= c && c <= '\u{D}') || c == ' ' || c == '\u{85}' || c == '\u{A0}' || c == '\u{1680}' || (
    '\u{2000}' <= c && c <= '\u{200A}') || c == '\u{2028}' || c == '\u{2029}' || c == '\u{202F}' || c
        == '\u{205F}' || c == '\u{3000}'
}

proof fn lemma_trim_bounds(m: Seq<char>, lo: int, hi: int)
    requires
        lo <= hi,
    ensures
        lo <= trim_start(m, lo, hi) <= hi,
        lo <= trim_end(m, lo, hi) <= hi,
    decreases hi - lo,
{
    if lo < hi {
        lemma_trim_bounds(m, lo + 1, hi);
        lemma_trim_bounds(m, lo, hi - 1);
    }
}

/// `m[lo..hi]` trimmed of white space, as a range.
fn trim_range(m: &Vec<char>, lo: usize, hi: usize) -> (r: (usize, usize))
    requires
        lo <= hi <= m@.len(),
    ensures
        r.0 as int == trimmed(m@, lo as int, hi as int).0,
        r.1 as int == trimmed(m@, lo as int, hi as int).1,
        lo <= r.0 <= r.1 <= hi,
{
    let mut a = lo;
    while a < hi && is_white_exec(m[a])
        invariant
            lo <= a <= hi <= m@.len(),
            trim_start(m@, a as int, hi as int) == trim_start(m@, lo as int, hi as int),
        decreases hi - a,
    {
        a = a + 1;
    }
    let mut b = hi;
    while b > a && is_white_exec(m[b - 1])
        invariant
            lo <= a <= b <= hi <= m@.len(),
            trim_end(m@, a as int, b as int) == trim_end(m@, a as int, hi as int),
        decreases b - a,
    {
        b = b - 1;
    }
    proof {
        lemma_trim_bounds(m@, lo as int, hi as int);
    }
    (a, b)
}

proof fn lemma_first_of_found(m: Seq<char>, from: int, hi: int, c: char)
    ensures
        first_of(m, from, hi, c) matches Some(j) ==> from <= j < hi && m[j] == c,
    decreases hi - from,
{
    if from < hi && m[from] != c {
        lemma_first_of_found(m, from + 1, hi, c);
    }
}

/// The first position in `from..hi` holding `c`.
fn first_of_exec(m: &Vec<char>, from: usize, hi: usize, c: char) -> (r: Option<usize>)
    requires
        from <= hi <= m@.len(),
    ensures
        match r {
            Some(j) => first_of(m@, from as int, hi as int, c) == Some(j as int),
            None => first_of(m@, from as int, hi as int, c) is None,
        },
{
    let mut j = from;
    while j < hi
        invariant
            from <= j <= hi <= m@.len(),
            first_of(m@, j as int, hi as int, c) == first_of(m@, from as int, hi as int, c),
        decreases hi - j,
    {
        if m[j] == c {
            return Some(j);
        }
        j = j + 1;
    }
    None
}

/// What starts at a position of the markup, with ranges of its characters.
pub enum PieceAt {
    Plain,
    Escape,
    Close { name: (usize, usize), end: usize },
    Open { name: (usize, usize), value: Option<(usize, usize)>, end: usize },
}

impl View for PieceAt {
    type V = Piece;

    open spec fn view(&self) -> Piece {
        match self {
            PieceAt::Plain => Piece::Plain,
            PieceAt::Escape => Piece::Escape,
            PieceAt::Close { name, end } => Piece::Close { name: (name.0 as int, name.1 as int), end: *end as int },
            PieceAt::Open { name, value, end } => Piece::Open {
                name: (name.0 as int, name.1 as int),
                value: match value {
                    Some(v) => Some((v.0 as int, v.1 as int)),
                    None => None,
                },
                end: *end as int,
            },
        }
    }
}

/// Every range a piece names lies inside the markup, ahead of the piece,
/// and the piece ends past its start and no later than the markup.
pub open spec fn piece_in_bounds(m: Seq<char>, i: int, p: Piece) -> bool {
    match p {
        Piece::Plain => i + 1 <= m.len(),
        Piece::Escape => i + 2 <= m.len(),
        Piece::Close { name, end } => i < end <= m.len() && i <= name.0 <= name.1 <= end,
        Piece::Open { name, value, end } => i < end <= m.len() && i <= name.0 <= name.1 <= end && match value {
            Some(v) => i <= v.0 <= v.1 <= end,
            None => true,
        },
    }
}

proof fn lemma_piece_in_bounds(m: Seq<char>, i: int)
    requires
        0 <= i < m.len(),
    ensures
        piece_in_bounds(m, i, piece_at(m, i)),
        i < next_position(m, i) <= m.len(),
{
    if m[i] == '[' && !(i + 1 < m.len() && m[i + 1] == '[') {
        lemma_first_of_found(m, i, m.len() as int, ']');
        if let Some(c) = first_of(m, i, m.len() as int, ']') {
            lemma_first_of_found(m, i + 1, c, '=');
            lemma_trim_bounds(m, i + 1, c);
            if let Some(e) = first_of(m, i + 1, c, '=') {
                lemma_trim_bounds(m, i + 1, e);
                lemma_trim_bounds(m, e + 1, c);
                lemma_trim_bounds(m, trim_start(m, i + 1, e), e);
                lemma_trim_bounds(m, trim_start(m, e + 1, c), c);
            } else {
                lemma_trim_bounds(m, trim_start(m, i + 1, c), c);
            }
            if i + 1 < c {
                lemma_trim_bounds(m, i + 2, c);
                lemma_trim_bounds(m, trim_start(m, i + 2, c), c);
            }
        }
    }
}

/// What starts at position `i`.
fn piece_exec(m: &Vec<char>, i: usize) -> (p: PieceAt)
    requires
        i < m@.len(),
    ensures
        p@ == piece_at(m@, i as int),
{
    let n = m.len();
    if m[i] != '[' {
        return PieceAt::Plain;
    }
    if i + 1 < n && m[i + 1] == '[' {
        return PieceAt::Escape;
    }
    match first_of_exec(m, i, m.len(), ']') {
        None => PieceAt::Plain,
        Some(c) => {
            proof {
                lemma_first_of_found(m@, i as int, m@.len() as int, ']');
            }
            if i + 1 < c && m[i + 1] == '/' {
                PieceAt::Close { name: trim_range(m, i + 2, c), end: c + 1 }
            } else {
                match first_of_exec(m, i + 1, c, '=') {
                    Some(e) => {
                        proof {
                            lemma_first_of_found(m@, i + 1, c as int, '=');
                        }
                        PieceAt::Open { name: trim_range(m, i + 1, e), value: Some(trim_range(m, e + 1, c)), end: c + 1 }
                    },
                    None => PieceAt::Open { name: trim_range(m, i + 1, c), value: None, end: c + 1 },
                }
            }
        },
    }
}

// ---------------------------------------------------------------------------
// Parsing, executed
// ---------------------------------------------------------------------------

/// The characters of `text`, and the byte offset of each, with the length
/// in bytes last.
pub(crate) fn chars_and_offsets(text: &str) -> (r: (Vec<char>, Vec<usize>))
    ensures
        r.0@ == text@,
        r.1@.len() == text@.len() + 1,
        forall|k: int| 0 <= k <= text@.len() ==> #[trigger] r.1@[k] == byte_len(text@.take(k)),
{
    broadcast use vstd::string::group_string_axioms, vstd::slice::group_slice_axioms;

    let total = text.as_bytes().len();
    let mut chars = text.chars();
    let mut out: Vec<char> = Vec::new();
    let mut offsets: Vec<usize> = Vec::new();
    let mut offset: usize = 0;
    let ghost mut seen: int = 0;
    proof {
        assert(text@.skip(0) =~= text@);
        assert(text@.take(0) =~= Seq::<char>::empty());
    }
    loop
        invariant
            0 <= seen <= text@.len(),
            chars.remaining() == text@.skip(seen),
            offset == byte_len(text@.take(seen)),
            byte_len(text@) == total,
            out@ == text@.take(seen),
            offsets@.len() == seen,
            forall|k: int| 0 <= k < seen ==> #[trigger] offsets@[k] == byte_len(text@.take(k)),
        decreases text@.len() - seen,
    {
        match chars.next() {
            Some(ch) => {
                let width = char_len_utf8(ch);
                proof {
                    assert(text@.skip(seen).drop_first() =~= text@.skip(seen + 1));
                    assert(text@.take(seen + 1) =~= text@.take(seen).push(ch));
                    lemma_encode_utf8_push(text@.take(seen), ch);
                    lemma_encode_utf8_prefix_len(text@, seen + 1);
                }
                offsets.push(offset);
                out.push(ch);
                offset = offset + width;
                proof {
                    seen = seen + 1;
                }
            },
            None => {
                proof {
                    assert(text@.take(seen) =~= text@);
                }
                offsets.push(offset);
                return (out, offsets);
            },
        }
    }
}

/// The text `m[lo..hi]`.
pub(crate) fn string_of(m: &Vec<char>, lo: usize, hi: usize) -> (s: String)
    requires
        lo <= hi <= m@.len(),
    ensures
        s@ == m@.subrange(lo as int, hi as int),
{
    let c = Composer::new().push_chars(m, lo, hi);
    assert(Seq::<char>::empty() + m@.subrange(lo as int, hi as int) =~= m@.subrange(lo as int, hi as int));
    c.finish()
}

fn copy_text(t: &Option<String>) -> (c: Option<String>)
    ensures
        match (t, c) {
            (Some(a), Some(b)) => a@ == b@,
            (None, None) => true,
            _ => false,
        },
{
    match t {
        Some(a) => Some(a.clone()),
        None => None,
    }
}

/// A copy of a style.
fn copy_style(s: &RunStyle) -> (c: RunStyle)
    ensures
        c@ == s@,
{
    RunStyle {
        color: s.color,
        size: s.size,
        role: s.role,
        decoration: s.decoration,
        motion: s.motion,
        link: copy_text(&s.link),
    }
}

fn float_eq_exec(a: u32, b: u32) -> (r: bool)
    ensures
        r == float_eq(a, b),
{
    let a_nan = (a & 0x7F80_0000) == 0x7F80_0000 && (a & 0x007F_FFFF) != 0;
    let b_nan = (b & 0x7F80_0000) == 0x7F80_0000 && (b & 0x007F_FFFF) != 0;
    !a_nan && !b_nan && (a == b || ((a | b) & 0x7FFF_FFFF) == 0)
}

/// Whether two styles are equal, their numbers compared as floats.
fn style_eq_exec(a: &RunStyle, b: &RunStyle) -> (r: bool)
    ensures
        r == style_eq(a@, b@),
{
    let color = match (a.color, b.color) {
        (None, None) => true,
        (Some(x), Some(y)) => x[0] == y[0] && x[1] == y[1] && x[2] == y[2] && x[3] == y[3],
        _ => false,
    };
    proof {
        if let (Some(x), Some(y)) = (a.color, b.color) {
            broadcast use vstd::array::group_array_axioms;

            if x[0] == y[0] && x[1] == y[1] && x[2] == y[2] && x[3] == y[3] {
                assert(x =~= y);
            }
        }
    }
    let size = match (a.size, b.size) {
        (None, None) => true,
        (Some(x), Some(y)) => float_eq_exec(x, y),
        _ => false,
    };
    let role = match (a.role, b.role) {
        (None, None) => true,
        (Some(x), Some(y)) => x == y,
        _ => false,
    };
    let motion = match (a.motion, b.motion) {
        (MotionBits::Still, MotionBits::Still) => true,
        (MotionBits::Wave { amplitude: a1, frequency: f1 }, MotionBits::Wave { amplitude: a2, frequency: f2 }) =>
            float_eq_exec(a1, a2) && float_eq_exec(f1, f2),
        (MotionBits::Shake { amplitude: a1 }, MotionBits::Shake { amplitude: a2 }) => float_eq_exec(a1, a2),
        _ => false,
    };
    let link = match (&a.link, &b.link) {
        (None, None) => true,
        (Some(x), Some(y)) => str_equals(x.as_str(), y.as_str()),
        _ => false,
    };
    color && size && role && a.decoration == b.decoration && motion && link
}

/// Whether applying a tag would read a colour that cuts a character.
fn cuts_a_char_exec(name: &str, value: &Option<String>) -> (r: bool)
    ensures
        r == cuts_a_char(
            name@,
            match value {
                Some(v) => Some(v@),
                None => None,
            },
        ),
{
    if !str_equals(name, "color") {
        return false;
    }
    match value {
        Some(v) => color_would_cut_a_char(v.as_str()),
        None => false,
    }
}

/// What an opening tag does to a style, or `None` for a tag this
/// vocabulary does not know or a value it cannot use.
fn apply_tag(style: &RunStyle, name: &str, value: &Option<String>, reading: TagReading) -> (r: Option<RunStyle>)
    requires
        !cuts_a_char(
            name@,
            match value {
                Some(v) => Some(v@),
                None => None,
            },
        ),
    ensures
        match r {
            Some(t) => applied(
                style@,
                name@,
                match value {
                    Some(v) => Some(v@),
                    None => None,
                },
                reading,
            ) == Some(t@),
            None => applied(
                style@,
                name@,
                match value {
                    Some(v) => Some(v@),
                    None => None,
                },
                reading,
            ) is None,
        },
{
    let mut next = copy_style(style);
    if str_equals(name, "b") {
        next.decoration.bold = true;
    } else if str_equals(name, "i") {
        next.decoration.italic = true;
    } else if str_equals(name, "u") {
        next.decoration.underline = true;
    } else if str_equals(name, "s") {
        next.decoration.strikethrough = true;
    } else if str_equals(name, "color") {
        match value {
            Some(v) => match parse_color(v.as_str()) {
                Some(c) => next.color = Some(c),
                None => return None,
            },
            None => return None,
        }
    } else if str_equals(name, "size") {
        match reading {
            TagReading::Size(Some(px)) => next.size = Some(px),
            _ => return None,
        }
    } else if str_equals(name, "font") {
        match value {
            Some(v) => match parse_role(v.as_str()) {
                Some(role) => next.role = Some(role),
                None => return None,
            },
            None => return None,
        }
    } else if str_equals(name, "link") {
        match value {
            Some(v) => {
                if v.as_str().is_empty() {
                    return None;
                }
                next.link = Some(v.clone());
            },
            None => return None,
        }
    } else if str_equals(name, "wave") {
        match reading {
            TagReading::Wave { amplitude, frequency } => next.motion = MotionBits::Wave { amplitude, frequency },
            _ => return None,
        }
    } else if str_equals(name, "shake") {
        match reading {
            TagReading::Shake { amplitude } => next.motion = MotionBits::Shake { amplitude },
            _ => return None,
        }
    } else {
        return None;
    }
    Some(next)
}

/// Past the last tag that styles, only literal tags: the innermost styling
/// tag is found before them.
proof fn lemma_innermost_past_literals(s: Seq<OpenView>, k: int)
    requires
        0 <= k <= s.len(),
        forall|j: int| k <= j < s.len() ==> (#[trigger] s[j]).literal,
    ensures
        innermost_styling(s) == innermost_styling(s.take(k)),
    decreases s.len(),
{
    if s.len() > k {
        assert(s.drop_last().take(k) =~= s.take(k));
        lemma_innermost_past_literals(s.drop_last(), k);
    } else {
        assert(s.take(k) =~= s);
    }
}

/// A styled span of the stripped text: a byte range of it, its style, and
/// the sprite drawn in place of its text, if any.
#[derive(Debug)]
pub struct MarkupRun {
    pub range: Range<usize>,
    pub style: RunStyle,
    pub sprite: Option<String>,
}

impl View for MarkupRun {
    type V = RunView;

    open spec fn view(&self) -> RunView {
        RunView {
            start: self.range.start as nat,
            end: self.range.end as nat,
            style: self.style@,
            sprite: match self.sprite {
                Some(s) => Some(s@),
                None => None,
            },
        }
    }
}

/// The runs, as views.
pub open spec fn runs_view(runs: Seq<MarkupRun>) -> Seq<RunView> {
    runs.map_values(|r: MarkupRun| r@)
}

/// A tag still open.
struct OpenTag {
    tag: String,
    at: usize,
    previous: RunStyle,
    literal: bool,
}

impl View for OpenTag {
    type V = OpenView;

    closed spec fn view(&self) -> OpenView {
        OpenView { tag: self.tag@, at: self.at as nat, previous: self.previous@, literal: self.literal }
    }
}

spec fn opens_view(stack: Seq<OpenTag>) -> Seq<OpenView> {
    stack.map_values(|o: OpenTag| o@)
}

spec fn state_of(
    i: usize,
    text: Seq<char>,
    runs: Seq<MarkupRun>,
    stack: Seq<OpenTag>,
    style: StyleView,
    run_start: usize,
    tags: usize,
) -> ScanState {
    ScanState {
        i: i as int,
        text,
        runs: runs_view(runs),
        stack: opens_view(stack),
        style,
        run_start: run_start as nat,
        tags: tags as nat,
    }
}

/// How a parse ended, with the stripped text as a `String`.
pub enum ParseResult {
    Parsed { text: String, runs: Vec<MarkupRun> },
    Failed(MarkupError),
    ColourCut,
}

/// Closes the current run at `end` in `style`, unless it would be empty.
fn flush(runs: &mut Vec<MarkupRun>, run_start: &mut usize, end: usize, style: &RunStyle)
    ensures
        runs_view(final(runs)@) == flushed(
            ScanState {
                i: 0,
                text: Seq::empty(),
                runs: runs_view(old(runs)@),
                stack: Seq::empty(),
                style: style@,
                run_start: *old(run_start) as nat,
                tags: 0,
            },
            end as nat,
            style@,
        ).runs,
        *final(run_start) == end,
{
    if end > *run_start {
        let ghost before = runs@;
        runs.push(MarkupRun { range: *run_start..end, style: copy_style(style), sprite: None });
        assert(runs_view(runs@) =~= runs_view(before).push(runs@.last()@));
    }
    *run_start = end;
}

/// Parses markup, given what was read of its opening tags' numbers.
fn parse_core(markup: &str, readings: &Vec<TagReading>) -> (r: ParseResult)
    ensures
        match r {
            ParseResult::Parsed { text, runs } => parse_outcome(markup@, readings@) == (Outcome::Parsed {
                text: text@,
                runs: runs_view(runs@),
            }),
            ParseResult::Failed(e) => parse_outcome(markup@, readings@) == Outcome::Failed(e@),
            ParseResult::ColourCut => parse_outcome(markup@, readings@) == Outcome::ColourCut,
        },
{
    let (m, offsets) = chars_and_offsets(markup);
    let mut text = Composer::new();
    let mut runs: Vec<MarkupRun> = Vec::new();
    let mut stack: Vec<OpenTag> = Vec::new();
    let mut style = RunStyle {
        color: None,
        size: None,
        role: None,
        decoration: Decoration { bold: false, italic: false, underline: false, strikethrough: false },
        motion: MotionBits::Still,
        link: None,
    };
    let mut run_start: usize = 0;
    let mut tags: usize = 0;
    let mut i: usize = 0;
    proof {
        assert(state_of(i, text@, runs@, stack@, style@, run_start, tags) =~= start_state());
    }
    while i < m.len()
        invariant
            m@ == markup@,
            offsets@.len() == m@.len() + 1,
            forall|k: int| 0 <= k <= m@.len() ==> #[trigger] offsets@[k] == byte_len(m@.take(k)),
            i <= m@.len(),
            tags <= i,
            outcome_from(m@, readings@, state_of(i, text@, runs@, stack@, style@, run_start, tags))
                == parse_outcome(m@, readings@),
        decreases m@.len() - i,
    {
        proof {
            lemma_piece_in_bounds(m@, i as int);
        }
        let ghost st = state_of(i, text@, runs@, stack@, style@, run_start, tags);
        let at = offsets[i];
        match piece_exec(&m, i) {
            PieceAt::Plain => {
                text = text.push_char(m[i]);
                i = i + 1;
            },
            PieceAt::Escape => {
                text = text.push_char('[');
                i = i + 2;
            },
            PieceAt::Close { name, end } => {
                let n = string_of(&m, name.0, name.1);
                let ghost before = stack@;
                match stack.pop() {
                    None => {
                        return ParseResult::Failed(MarkupError::Unmatched { at, tag: n });
                    },
                    Some(open) => {
                        proof {
                            assert(opens_view(stack@) =~= opens_view(before).drop_last());
                        }
                        if !str_equals(open.tag.as_str(), n.as_str()) {
                            return ParseResult::Failed(MarkupError::Unmatched { at, tag: n });
                        }
                        if open.literal {
                            text = text.push_chars(&m, i, end);
                        } else {
                            let len = text.len();
                            flush(&mut runs, &mut run_start, len, &style);
                            style = open.previous;
                        }
                        i = end;
                    },
                }
            },
            PieceAt::Open { name, value, end } => {
                let n = string_of(&m, name.0, name.1);
                let v = match value {
                    Some(r) => Some(string_of(&m, r.0, r.1)),
                    None => None,
                };
                if str_equals(n.as_str(), "sprite") {
                    match v {
                        Some(sprite) => {
                            if sprite.as_str().is_empty() {
                                return ParseResult::Failed(MarkupError::BadValue { at, tag: n });
                            }
                            let len = text.len();
                            flush(&mut runs, &mut run_start, len, &style);
                            text = text.push_char(SPRITE_PLACEHOLDER);
                            let stop = text.len();
                            let ghost before = runs@;
                            runs.push(MarkupRun { range: len..stop, style: copy_style(&style), sprite: Some(sprite) });
                            proof {
                                assert(runs_view(runs@) =~= runs_view(before).push(runs@.last()@));
                            }
                            run_start = stop;
                        },
                        None => {
                            return ParseResult::Failed(MarkupError::BadValue { at, tag: n });
                        },
                    }
                } else if cuts_a_char_exec(n.as_str(), &v) {
                    return ParseResult::ColourCut;
                } else {
                    let reading = if tags < readings.len() {
                        readings[tags]
                    } else {
                        TagReading::Nothing
                    };
                    let ghost before = stack@;
                    match apply_tag(&style, n.as_str(), &v, reading) {
                        None => {
                            text = text.push_chars(&m, i, end);
                            stack.push(OpenTag { tag: n, at, previous: copy_style(&style), literal: true });
                        },
                        Some(next) => {
                            if style_eq_exec(&next, &style) {
                                stack.push(OpenTag { tag: n, at, previous: style, literal: false });
                            } else {
                                let len = text.len();
                                flush(&mut runs, &mut run_start, len, &style);
                                stack.push(OpenTag { tag: n, at, previous: style, literal: false });
                            }
                            style = next;
                        },
                    }
                    proof {
                        assert(opens_view(stack@) =~= opens_view(before).push(stack@.last()@));
                    }
                }
                tags = tags + 1;
                i = end;
            },
        }
        proof {
            let next = state_of(i, text@, runs@, stack@, style@, run_start, tags);
            assert(step(m@, readings@, st) == Step::Next(next));
        }
    }
    let ghost done = state_of(i, text@, runs@, stack@, style@, run_start, tags);
    assert(parse_outcome(m@, readings@) == finished(done));
    let mut k = stack.len();
    while k > 0
        invariant
            k <= stack@.len(),
            done == state_of(i, text@, runs@, stack@, style@, run_start, tags),
            parse_outcome(markup@, readings@) == finished(done),
            forall|j: int| k <= j < stack@.len() ==> (#[trigger] stack@[j]).literal,
        decreases k,
    {
        if !stack[k - 1].literal {
            proof {
                lemma_innermost_past_literals(opens_view(stack@), k as int);
                assert(opens_view(stack@).take(k as int).last() == stack@[k - 1]@);
            }
            return ParseResult::Failed(MarkupError::Unclosed { at: stack[k - 1].at, tag: stack[k - 1].tag.clone() });
        }
        k = k - 1;
    }
    proof {
        lemma_innermost_past_literals(opens_view(stack@), 0);
    }
    let len = text.len();
    flush(&mut runs, &mut run_start, len, &style);
    ParseResult::Parsed { text: text.finish(), runs }
}

/// Parse markup into the text with its tags removed, which is what gets
/// measured, shaped and searched, and the runs that style it. Run ranges
/// index that text, not the markup.
///
/// `readings` holds, for each opening tag `markup_tags` lists, in order,
/// what was read of its numbers.
pub fn parse(markup: &str, readings: &Vec<TagReading>) -> (r: Result<(String, Vec<MarkupRun>), MarkupError>)
    requires
        !(parse_outcome(markup@, readings@) is ColourCut),
    ensures
        match r {
            Ok((text, runs)) => parse_outcome(markup@, readings@) == (Outcome::Parsed {
                text: text@,
                runs: runs_view(runs@),
            }),
            Err(e) => parse_outcome(markup@, readings@) == Outcome::Failed(e@),
        },
        r matches Ok((text, runs)) ==> {
            &&& text@ == stripped_from(markup@, readings@, 0, Seq::empty(), 0)
            &&& tiles(runs_view(runs@), byte_len(text@))
            &&& runs_on_boundaries(runs_view(runs@), text@)
            &&& styles_from(markup@, readings@, 0, Seq::empty(), 0).len() == text@.len()
            &&& runs_carry(runs_view(runs@), text@, styles_from(markup@, readings@, 0, Seq::empty(), 0))
        },
{
    proof {
        lemma_runs_tile_the_text(markup@, readings@);
        lemma_text_is_the_stripped_markup(markup@, readings@);
        lemma_runs_carry_the_style_in_force(markup@, readings@);
    }
    match parse_core(markup, readings) {
        ParseResult::Parsed { text, runs } => Ok((text, runs)),
        ParseResult::Failed(e) => Err(e),
        ParseResult::ColourCut => vstd::pervasive::unreached(),
    }
}

/// `parse`, or `None` when a colour value's pieces would cut a character,
/// which slicing text refuses.
pub fn try_parse(markup: &str, readings: &Vec<TagReading>) -> (r: Option<Result<(String, Vec<MarkupRun>), MarkupError>>)
    ensures
        r is None <==> parse_outcome(markup@, readings@) is ColourCut,
        r matches Some(Ok((text, runs))) ==> parse_outcome(markup@, readings@) == (Outcome::Parsed {
            text: text@,
            runs: runs_view(runs@),
        }),
        r matches Some(Err(e)) ==> parse_outcome(markup@, readings@) == Outcome::Failed(e@),
        r matches Some(Ok((text, runs))) ==> {
            &&& text@ == stripped_from(markup@, readings@, 0, Seq::empty(), 0)
            &&& tiles(runs_view(runs@), byte_len(text@))
            &&& runs_on_boundaries(runs_view(runs@), text@)
            &&& styles_from(markup@, readings@, 0, Seq::empty(), 0).len() == text@.len()
            &&& runs_carry(runs_view(runs@), text@, styles_from(markup@, readings@, 0, Seq::empty(), 0))
        },
{
    proof {
        lemma_runs_tile_the_text(markup@, readings@);
        lemma_text_is_the_stripped_markup(markup@, readings@);
        lemma_runs_carry_the_style_in_force(markup@, readings@);
    }
    match parse_core(markup, readings) {
        ParseResult::Parsed { text, runs } => Some(Ok((text, runs))),
        ParseResult::Failed(e) => Some(Err(e)),
        ParseResult::ColourCut => None,
    }
}

/// The opening tags of `markup`, in order, each with its name and value,
/// both trimmed: the tags whose numbers a caller reads for `parse`.
pub fn markup_tags(markup: &str) -> (tags: Vec<(String, Option<String>)>)
    ensures
        tags@.map_values(
            |t: (String, Option<String>)|
                (
                    t.0@,
                    match t.1 {
                        Some(v) => Some(v@),
                        None => None,
                    },
                ),
        ) == open_tags_from(markup@, 0),
{
    let (m, _) = chars_and_offsets(markup);
    let mut tags: Vec<(String, Option<String>)> = Vec::new();
    let mut i: usize = 0;
    while i < m.len()
        invariant
            m@ == markup@,
            i <= m@.len(),
            open_tags_from(m@, 0) == tags@.map_values(
                |t: (String, Option<String>)|
                    (
                        t.0@,
                        match t.1 {
                            Some(v) => Some(v@),
                            None => None,
                        },
                    ),
            ) + open_tags_from(m@, i as int),
        decreases m@.len() - i,
    {
        proof {
            lemma_piece_in_bounds(m@, i as int);
        }
        let ghost before = tags@;
        let piece = piece_exec(&m, i);
        let next = match piece {
            PieceAt::Plain => i + 1,
            PieceAt::Escape => i + 2,
            PieceAt::Close { end, .. } => end,
            PieceAt::Open { name, value, end } => {
                let n = string_of(&m, name.0, name.1);
                let v = match value {
                    Some(r) => Some(string_of(&m, r.0, r.1)),
                    None => None,
                };
                tags.push((n, v));
                end
            },
        };
        proof {
            let f = |t: (String, Option<String>)|
                (
                    t.0@,
                    match t.1 {
                        Some(v) => Some(v@),
                        None => None,
                    },
                );
            if let PieceAt::Open { .. } = piece {
                assert(tags@.map_values(f) =~= before.map_values(f).push(f(tags@.last())));
                assert(before.map_values(f) + open_tags_from(m@, i as int) =~= tags@.map_values(f)
                    + open_tags_from(m@, next as int));
            } else {
                assert(tags@ == before);
            }
        }
        i = next;
    }
    proof {
        assert(open_tags_from(m@, i as int) =~= Seq::empty());
        assert(open_tags_from(m@, 0) =~= tags@.map_values(
            |t: (String, Option<String>)|
                (
                    t.0@,
                    match t.1 {
                        Some(v) => Some(v@),
                        None => None,
                    },
                ),
        ));
    }
    tags
}

// ---------------------------------------------------------------------------
// What a parse promises of its runs
// ---------------------------------------------------------------------------

/// Whether byte `b` is where one of `t`'s characters starts, or its end.
pub open spec fn on_char_boundary(t: Seq<char>, b: nat) -> bool {
    exists|j: int| 0 <= j <= t.len() && #[trigger] byte_len(t.take(j)) == b
}

/// Whether `runs` cover bytes `0..upto` in order, end to end, none empty.
pub open spec fn tiles(runs: Seq<RunView>, upto: nat) -> bool {
    &&& runs.len() == 0 ==> upto == 0
    &&& runs.len() > 0 ==> runs[0].start == 0 && runs.last().end == upto
    &&& forall|k: int| 0 <= k < runs.len() ==> (#[trigger] runs[k]).start < runs[k].end
    &&& forall|k: int| 0 <= k < runs.len() - 1 ==> (#[trigger] runs[k]).end == runs[k + 1].start
}

/// Whether every run starts and ends on a character boundary of `t`.
pub open spec fn runs_on_boundaries(runs: Seq<RunView>, t: Seq<char>) -> bool {
    forall|k: int|
        0 <= k < runs.len() ==> on_char_boundary(t, (#[trigger] runs[k]).start) && on_char_boundary(t, runs[k].end)
}

/// What holds of a parse at every step: the runs so far cover the text up
/// to where the current run starts, and every boundary is a character's.
pub open spec fn runs_sound(st: ScanState) -> bool {
    &&& tiles(st.runs, st.run_start)
    &&& on_char_boundary(st.text, st.run_start)
    &&& runs_on_boundaries(st.runs, st.text)
}

proof fn lemma_boundary_survives_append(t: Seq<char>, x: Seq<char>, b: nat)
    requires
        on_char_boundary(t, b),
    ensures
        on_char_boundary(t + x, b),
{
    let j = choose|j: int| 0 <= j <= t.len() && #[trigger] byte_len(t.take(j)) == b;
    assert((t + x).take(j) =~= t.take(j));
    assert(byte_len((t + x).take(j)) == b);
}

proof fn lemma_end_is_a_boundary(t: Seq<char>)
    ensures
        on_char_boundary(t, byte_len(t)),
{
    assert(t.take(t.len() as int) =~= t);
    assert(byte_len(t.take(t.len() as int)) == byte_len(t));
}

proof fn lemma_sound_after_append(st: ScanState, x: Seq<char>)
    requires
        runs_sound(st),
    ensures
        runs_sound(ScanState { text: st.text + x, ..st }),
{
    lemma_boundary_survives_append(st.text, x, st.run_start);
    assert forall|k: int| 0 <= k < st.runs.len() implies on_char_boundary(st.text + x, (#[trigger] st.runs[k]).start)
        && on_char_boundary(st.text + x, st.runs[k].end) by {
        lemma_boundary_survives_append(st.text, x, st.runs[k].start);
        lemma_boundary_survives_append(st.text, x, st.runs[k].end);
    }
}

proof fn lemma_boundary_within(t: Seq<char>, b: nat)
    requires
        on_char_boundary(t, b),
    ensures
        b <= byte_len(t),
{
    let j = choose|j: int| 0 <= j <= t.len() && #[trigger] byte_len(t.take(j)) == b;
    lemma_encode_utf8_prefix_len(t, j);
}

proof fn lemma_sound_after_flush(st: ScanState, style: StyleView)
    requires
        runs_sound(st),
    ensures
        runs_sound(flushed(st, byte_len(st.text), style)),
{
    let end = byte_len(st.text);
    lemma_end_is_a_boundary(st.text);
    lemma_boundary_within(st.text, st.run_start);
    let f = flushed(st, end, style);
    if end > st.run_start {
        assert(f.runs.last().end == end);
        assert forall|k: int| 0 <= k < f.runs.len() - 1 implies (#[trigger] f.runs[k]).end == f.runs[k + 1].start by {
            if k == f.runs.len() - 2 {
                assert(f.runs[k + 1].start == st.run_start);
            } else {
                assert(f.runs[k] == st.runs[k] && f.runs[k + 1] == st.runs[k + 1]);
            }
        }
        assert forall|k: int| 0 <= k < f.runs.len() implies (#[trigger] f.runs[k]).start < f.runs[k].end by {
            if k < st.runs.len() {
                assert(f.runs[k] == st.runs[k]);
            }
        }
        assert forall|k: int| 0 <= k < f.runs.len() implies on_char_boundary(st.text, (#[trigger] f.runs[k]).start)
            && on_char_boundary(st.text, f.runs[k].end) by {
            if k < st.runs.len() {
                assert(f.runs[k] == st.runs[k]);
            }
        }
    }
}

proof fn lemma_step_keeps_runs_sound(m: Seq<char>, readings: Seq<TagReading>, st: ScanState)
    requires
        runs_sound(st),
        0 <= st.i < m.len(),
    ensures
        step(m, readings, st) matches Step::Next(next) ==> runs_sound(next),
        step(m, readings, st) matches Step::Done(Outcome::Parsed { text, runs }) ==> false,
{
    lemma_piece_in_bounds(m, st.i);
    let i = st.i;
    match piece_at(m, i) {
        Piece::Plain => {
            assert(st.text.push(m[i]) =~= st.text + seq![m[i]]);
            lemma_sound_after_append(st, seq![m[i]]);
        },
        Piece::Escape => {
            assert(st.text.push('[') =~= st.text + seq!['[']);
            lemma_sound_after_append(st, seq!['[']);
        },
        Piece::Close { name, end } => {
            let n = chars_of(m, name);
            if !(st.stack.len() == 0 || st.stack.last().tag != n) {
                if st.stack.last().literal {
                    lemma_sound_after_append(st, m.subrange(i, end));
                } else {
                    lemma_sound_after_flush(st, st.style);
                }
            }
        },
        Piece::Open { name, value, end } => {
            let n = chars_of(m, name);
            let v = match value {
                Some(r) => Some(chars_of(m, r)),
                None => None,
            };
            if n == "sprite"@ {
                if let Some(sprite) = v {
                    if sprite.len() > 0 {
                        lemma_sound_after_flush(st, st.style);
                        let f = flushed(st, byte_len(st.text), st.style);
                        let text = st.text.push(SPRITE_PLACEHOLDER);
                        assert(text =~= st.text + seq![SPRITE_PLACEHOLDER]);
                        lemma_sound_after_append(f, seq![SPRITE_PLACEHOLDER]);
                        lemma_encode_utf8_push(st.text, SPRITE_PLACEHOLDER);
                        assert(byte_len(text) > byte_len(st.text));
                        lemma_end_is_a_boundary(text);
                        lemma_end_is_a_boundary(st.text);
                        lemma_boundary_survives_append(st.text, seq![SPRITE_PLACEHOLDER], byte_len(st.text));
                        let next = match step(m, readings, st) {
                            Step::Next(n) => n,
                            _ => st,
                        };
                        assert(next.runs == f.runs.push(
                            RunView { start: byte_len(st.text), end: byte_len(text), style: st.style, sprite: Some(sprite) },
                        ));
                        assert forall|k: int| 0 <= k < next.runs.len() - 1 implies (#[trigger] next.runs[k]).end
                            == next.runs[k + 1].start by {
                            if k < f.runs.len() - 1 {
                                assert(next.runs[k] == f.runs[k] && next.runs[k + 1] == f.runs[k + 1]);
                            }
                        }
                        assert forall|k: int| 0 <= k < next.runs.len() implies (#[trigger] next.runs[k]).start
                            < next.runs[k].end by {
                            if k < f.runs.len() {
                                assert(next.runs[k] == f.runs[k]);
                            }
                        }
                        assert forall|k: int| 0 <= k < next.runs.len() implies on_char_boundary(
                            text,
                            (#[trigger] next.runs[k]).start,
                        ) && on_char_boundary(text, next.runs[k].end) by {
                            if k < f.runs.len() {
                                assert(next.runs[k] == f.runs[k]);
                            }
                        }
                    }
                }
            } else if !cuts_a_char(n, v) {
                match applied(st.style, n, v, reading_at(readings, st.tags)) {
                    None => {
                        lemma_sound_after_append(st, m.subrange(i, end));
                    },
                    Some(style) => {
                        lemma_sound_after_flush(st, st.style);
                    },
                }
            }
        },
    }
}

proof fn lemma_outcome_runs_sound(m: Seq<char>, readings: Seq<TagReading>, st: ScanState)
    requires
        runs_sound(st),
    ensures
        outcome_from(m, readings, st) matches Outcome::Parsed { text, runs } ==> tiles(runs, byte_len(text))
            && runs_on_boundaries(runs, text),
    decreases m.len() - st.i,
{
    if st.i < 0 || st.i >= m.len() {
        lemma_sound_after_flush(st, st.style);
    } else {
        lemma_step_keeps_runs_sound(m, readings, st);
        if let Step::Next(next) = step(m, readings, st) {
            if st.i < next.i <= m.len() {
                lemma_outcome_runs_sound(m, readings, next);
            }
        }
    }
}

/// The runs of a parse tile the stripped text: from its first byte to its
/// last, end to end, none empty, every boundary on a character boundary,
/// so every run can slice the text. Empty text has no runs.
pub proof fn lemma_runs_tile_the_text(m: Seq<char>, readings: Seq<TagReading>)
    ensures
        parse_outcome(m, readings) matches Outcome::Parsed { text, runs } ==> {
            &&& tiles(runs, byte_len(text))
            &&& runs_on_boundaries(runs, text)
        },
{
    assert(start_state().text.take(0) =~= Seq::<char>::empty());
    assert(byte_len(start_state().text.take(0)) == 0);
    lemma_outcome_runs_sound(m, readings, start_state());
}

/// Whether an opening tag named `name` with `value` and `reading` stays in
/// the text as written: a tag this vocabulary does not know, or whose
/// value it cannot use. The style it would apply to plays no part.
pub open spec fn kept_literally(name: Seq<char>, value: Option<Seq<char>>, reading: TagReading) -> bool {
    applied(plain_style(), name, value, reading) is None
}

/// The text the markup from `i` on contributes, given whether each tag
/// still open keeps its text (`kept`, innermost last) and how many opening
/// tags came before: every plain character as itself, `[[` as `[`, a
/// sprite as the placeholder, an opening tag this vocabulary uses as
/// nothing and one it does not as its own text, and a closing tag as its
/// own text exactly when the tag it closes kept its.
pub open spec fn stripped_from(m: Seq<char>, readings: Seq<TagReading>, i: int, kept: Seq<bool>, tags: nat) -> Seq<char>
    decreases m.len() - i,
{
    if i < 0 || i >= m.len() {
        Seq::empty()
    } else {
        match piece_at(m, i) {
            Piece::Plain => seq![m[i]] + stripped_from(m, readings, i + 1, kept, tags),
            Piece::Escape => seq!['['] + stripped_from(m, readings, i + 2, kept, tags),
            Piece::Close { end, .. } => if i < end <= m.len() {
                (if kept.len() > 0 && kept.last() {
                    m.subrange(i, end)
                } else {
                    Seq::empty()
                }) + stripped_from(m, readings, end, kept.drop_last(), tags)
            } else {
                Seq::empty()
            },
            Piece::Open { name, value, end } => if i < end <= m.len() {
                let n = chars_of(m, name);
                let v = match value {
                    Some(r) => Some(chars_of(m, r)),
                    None => None,
                };
                if n == "sprite"@ {
                    seq![SPRITE_PLACEHOLDER] + stripped_from(m, readings, end, kept, tags + 1)
                } else {
                    let lit = kept_literally(n, v, reading_at(readings, tags));
                    (if lit {
                        m.subrange(i, end)
                    } else {
                        Seq::empty()
                    }) + stripped_from(m, readings, end, kept.push(lit), tags + 1)
                }
            } else {
                Seq::empty()
            },
        }
    }
}

/// Whether each open tag keeps its text.
pub open spec fn kept_flags(stack: Seq<OpenView>) -> Seq<bool> {
    stack.map_values(|o: OpenView| o.literal)
}

/// Whether a tag applies does not depend on the style it applies to.
proof fn lemma_applied_ignores_the_style(a: StyleView, b: StyleView, name: Seq<char>, value: Option<Seq<char>>, reading: TagReading)
    ensures
        applied(a, name, value, reading) is None <==> applied(b, name, value, reading) is None,
{
}

proof fn lemma_outcome_text(m: Seq<char>, readings: Seq<TagReading>, st: ScanState)
    ensures
        outcome_from(m, readings, st) matches Outcome::Parsed { text, .. } ==> text == st.text + stripped_from(
            m,
            readings,
            st.i,
            kept_flags(st.stack),
            st.tags,
        ),
    decreases m.len() - st.i,
{
    if st.i < 0 || st.i >= m.len() {
        assert(st.text + Seq::<char>::empty() =~= st.text);
    } else {
        let i = st.i;
        match step(m, readings, st) {
            Step::Done(_) => {},
            Step::Next(next) => {
                if st.i < next.i <= m.len() {
                    lemma_outcome_text(m, readings, next);
                    if outcome_from(m, readings, next) is Parsed {
                        match piece_at(m, i) {
                            Piece::Plain => {
                                assert(next.text + stripped_from(m, readings, next.i, kept_flags(next.stack), next.tags)
                                    =~= st.text + (seq![m[i]] + stripped_from(m, readings, i + 1, kept_flags(st.stack), st.tags)));
                            },
                            Piece::Escape => {
                                assert(next.text + stripped_from(m, readings, next.i, kept_flags(next.stack), next.tags)
                                    =~= st.text + (seq!['['] + stripped_from(m, readings, i + 2, kept_flags(st.stack), st.tags)));
                            },
                            Piece::Close { name, end } => {
                                assert(kept_flags(st.stack).last() == st.stack.last().literal);
                                assert(kept_flags(st.stack.drop_last()) =~= kept_flags(st.stack).drop_last());
                                if st.stack.last().literal {
                                    assert(next.text + stripped_from(m, readings, end, kept_flags(next.stack), next.tags)
                                        =~= st.text + (m.subrange(i, end) + stripped_from(m, readings, end, kept_flags(st.stack).drop_last(), st.tags)));
                                } else {
                                    assert(next.text + stripped_from(m, readings, end, kept_flags(next.stack), next.tags)
                                        =~= st.text + (Seq::<char>::empty() + stripped_from(m, readings, end, kept_flags(st.stack).drop_last(), st.tags)));
                                }
                            },
                            Piece::Open { name, value, end } => {
                                let n = chars_of(m, name);
                                let v = match value {
                                    Some(r) => Some(chars_of(m, r)),
                                    None => None,
                                };
                                if n == "sprite"@ {
                                    assert(next.text + stripped_from(m, readings, end, kept_flags(next.stack), next.tags)
                                        =~= st.text + (seq![SPRITE_PLACEHOLDER] + stripped_from(m, readings, end, kept_flags(st.stack), st.tags + 1)));
                                } else {
                                    lemma_applied_ignores_the_style(st.style, plain_style(), n, v, reading_at(readings, st.tags));
                                    let lit = kept_literally(n, v, reading_at(readings, st.tags));
                                    assert(kept_flags(next.stack) =~= kept_flags(st.stack).push(lit));
                                    if lit {
                                        assert(next.text + stripped_from(m, readings, end, kept_flags(next.stack), next.tags)
                                            =~= st.text + (m.subrange(i, end) + stripped_from(m, readings, end, kept_flags(st.stack).push(lit), st.tags + 1)));
                                    } else {
                                        assert(next.text + stripped_from(m, readings, end, kept_flags(next.stack), next.tags)
                                            =~= st.text + (Seq::<char>::empty() + stripped_from(m, readings, end, kept_flags(st.stack).push(lit), st.tags + 1)));
                                    }
                                }
                            },
                        }
                    }
                }
            },
        }
    }
}

/// The text of a parse is the markup with every tag this vocabulary uses
/// removed, each sprite replaced by the placeholder, every `[[` collapsed
/// to `[`, and tags it does not use, with their closing tags, kept as
/// written. Markup without a `[` is its own text.
pub proof fn lemma_text_is_the_stripped_markup(m: Seq<char>, readings: Seq<TagReading>)
    ensures
        parse_outcome(m, readings) matches Outcome::Parsed { text, .. } ==> text == stripped_from(
            m,
            readings,
            0,
            Seq::empty(),
            0,
        ),
        !m.contains('[') ==> stripped_from(m, readings, 0, Seq::empty(), 0) == m,
{
    lemma_outcome_text(m, readings, start_state());
    assert(kept_flags(start_state().stack) =~= Seq::<bool>::empty());
    assert(Seq::<char>::empty() + stripped_from(m, readings, 0, Seq::empty(), 0) =~= stripped_from(m, readings, 0, Seq::empty(), 0));
    if !m.contains('[') {
        lemma_no_brackets_strip_nothing(m, readings, 0);
        assert(m.skip(0) =~= m);
    }
}

proof fn lemma_no_brackets_strip_nothing(m: Seq<char>, readings: Seq<TagReading>, i: int)
    requires
        !m.contains('['),
        0 <= i <= m.len(),
    ensures
        stripped_from(m, readings, i, Seq::empty(), 0) == m.skip(i),
    decreases m.len() - i,
{
    if i < m.len() {
        assert(m[i] != '[') by {
            if m[i] == '[' {
                assert(m.contains('['));
            }
        }
        lemma_no_brackets_strip_nothing(m, readings, i + 1);
        assert(m.skip(i) =~= seq![m[i]] + m.skip(i + 1));
    } else {
        assert(m.skip(i) =~= Seq::<char>::empty());
    }
}

// ---------------------------------------------------------------------------
// What a parse promises of its runs' styles
// ---------------------------------------------------------------------------

/// An opening tag as the style sees it: its name, its value, and the
/// reading of its numbers.
pub open spec fn tag_read(name: Seq<char>, value: Option<Seq<char>>, reading: TagReading) -> (Seq<char>, Option<Seq<char>>, TagReading) {
    (name, value, reading)
}

/// The style the open tags `open` (outermost first) put in force: each tag
/// this vocabulary uses applied in turn to the plain style; the others add
/// nothing.
pub open spec fn fold_style(open: Seq<(Seq<char>, Option<Seq<char>>, TagReading)>) -> StyleView
    decreases open.len(),
{
    if open.len() == 0 {
        plain_style()
    } else {
        let inner = fold_style(open.drop_last());
        let t = open.last();
        match applied(inner, t.0, t.1, t.2) {
            Some(s) => s,
            None => inner,
        }
    }
}

/// The style in force at each character the markup from `i` on adds to the
/// stripped text, given the tags open before `i` (outermost first) and how
/// many opening tags came before: the fold of the tags open around it.
pub open spec fn styles_from(
    m: Seq<char>,
    readings: Seq<TagReading>,
    i: int,
    open: Seq<(Seq<char>, Option<Seq<char>>, TagReading)>,
    tags: nat,
) -> Seq<StyleView>
    decreases m.len() - i,
{
    if i < 0 || i >= m.len() {
        Seq::empty()
    } else {
        let here = fold_style(open);
        match piece_at(m, i) {
            Piece::Plain => seq![here] + styles_from(m, readings, i + 1, open, tags),
            Piece::Escape => seq![here] + styles_from(m, readings, i + 2, open, tags),
            Piece::Close { end, .. } => if i < end <= m.len() {
                (if open.len() > 0 && kept_literally(open.last().0, open.last().1, open.last().2) {
                    Seq::new((end - i) as nat, |j: int| here)
                } else {
                    Seq::empty()
                }) + styles_from(m, readings, end, open.drop_last(), tags)
            } else {
                Seq::empty()
            },
            Piece::Open { name, value, end } => if i < end <= m.len() {
                let n = chars_of(m, name);
                let v = match value {
                    Some(r) => Some(chars_of(m, r)),
                    None => None,
                };
                if n == "sprite"@ {
                    seq![here] + styles_from(m, readings, end, open, tags + 1)
                } else {
                    let t = tag_read(n, v, reading_at(readings, tags));
                    (if kept_literally(t.0, t.1, t.2) {
                        Seq::new((end - i) as nat, |j: int| here)
                    } else {
                        Seq::empty()
                    }) + styles_from(m, readings, end, open.push(t), tags + 1)
                }
            } else {
                Seq::empty()
            },
        }
    }
}

/// Two styles that are the same, the numbers compared as floats.
pub open spec fn same_style(a: StyleView, b: StyleView) -> bool {
    a == b || style_eq(a, b)
}

/// Whether run `r` covers character `j` of `t`: the character starts inside
/// the run's bytes.
pub open spec fn covers(r: RunView, t: Seq<char>, j: int) -> bool {
    &&& 0 <= j < t.len()
    &&& r.start <= byte_len(t.take(j))
    &&& byte_len(t.take(j)) < r.end
}

/// Whether every run carries the style of each character it covers.
pub open spec fn runs_carry(runs: Seq<RunView>, t: Seq<char>, styles: Seq<StyleView>) -> bool {
    forall|k: int, j: int| 0 <= k < runs.len() && #[trigger] covers(runs[k], t, j) ==> same_style(runs[k].style, styles[j])
}

proof fn lemma_float_eq_laws(a: u32, b: u32, c: u32)
    ensures
        float_eq(a, b) ==> float_eq(b, a),
        float_eq(a, b) && float_eq(b, c) ==> float_eq(a, c),
{
    assert(float_eq(a, b) ==> float_eq(b, a)) by (bit_vector);
    assert(float_eq(a, b) && float_eq(b, c) ==> float_eq(a, c)) by (bit_vector);
}

proof fn lemma_style_eq_through(a: StyleView, b: StyleView, c: StyleView)
    requires
        style_eq(a, b),
        same_style(b, c),
    ensures
        style_eq(a, c),
{
    if b != c {
        match (a.size, b.size, c.size) {
            (Some(x), Some(y), Some(z)) => lemma_float_eq_laws(x, y, z),
            _ => {},
        }
        match (a.motion, b.motion, c.motion) {
            (MotionBits::Wave { amplitude: a1, frequency: f1 }, MotionBits::Wave { amplitude: a2, frequency: f2 }, MotionBits::Wave { amplitude: a3, frequency: f3 }) => {
                lemma_float_eq_laws(a1, a2, a3);
                lemma_float_eq_laws(f1, f2, f3);
            },
            (MotionBits::Shake { amplitude: a1 }, MotionBits::Shake { amplitude: a2 }, MotionBits::Shake { amplitude: a3 }) => {
                lemma_float_eq_laws(a1, a2, a3);
            },
            _ => {},
        }
    }
}

proof fn lemma_prefix_bytes_grow(t: Seq<char>, j: int, k: int)
    requires
        0 <= j < k <= t.len(),
    ensures
        byte_len(t.take(j)) < byte_len(t.take(k)),
{
    assert(t.take(j + 1) =~= t.take(j).push(t[j]));
    lemma_encode_utf8_push(t.take(j), t[j]);
    assert(t.take(k).take(j + 1) =~= t.take(j + 1));
    lemma_encode_utf8_prefix_len(t.take(k), j + 1);
}

proof fn lemma_tiles_end_bound(runs: Seq<RunView>, upto: nat)
    requires
        tiles(runs, upto),
    ensures
        forall|k: int| 0 <= k < runs.len() ==> (#[trigger] runs[k]).end <= upto,
    decreases runs.len(),
{
    if runs.len() > 0 {
        let init = runs.drop_last();
        let n = runs.len() - 1;
        assert forall|k: int| 0 <= k < init.len() - 1 implies (#[trigger] init[k]).end == init[k + 1].start by {
            assert(init[k] == runs[k] && init[k + 1] == runs[k + 1]);
        }
        if init.len() > 0 {
            assert(init.last() == runs[n - 1]);
            assert(runs[n - 1].end == runs[n].start);
        }
        assert(tiles(init, runs[n].start));
        lemma_tiles_end_bound(init, runs[n].start);
        assert forall|k: int| 0 <= k < runs.len() implies (#[trigger] runs[k]).end <= upto by {
            if k < n {
                assert(init[k] == runs[k]);
            }
        }
    }
}

/// The scan so far has put the style of the open tags in force, and each
/// open tag remembers the style of the tags around it.
pub open spec fn style_follows(st: ScanState, open: Seq<(Seq<char>, Option<Seq<char>>, TagReading)>) -> bool {
    &&& st.stack.len() == open.len()
    &&& st.style == fold_style(open)
    &&& forall|k: int|
        0 <= k < open.len() ==> (#[trigger] st.stack[k]).previous == fold_style(open.take(k))
            && st.stack[k].literal == kept_literally(open[k].0, open[k].1, open[k].2)
}

/// The characters after the last closed run carry the style in force.
pub open spec fn pending_carry(st: ScanState, styles: Seq<StyleView>) -> bool {
    forall|j: int|
        0 <= j < st.text.len() && st.run_start <= #[trigger] byte_len(st.text.take(j)) ==> same_style(st.style, styles[j])
}

proof fn lemma_carry_after_append(st: ScanState, x: Seq<char>, so_far: Seq<StyleView>, chunk: Seq<StyleView>)
    requires
        runs_sound(st),
        so_far.len() == st.text.len(),
        runs_carry(st.runs, st.text, so_far),
        pending_carry(st, so_far),
        chunk.len() == x.len(),
        forall|j: int| 0 <= j < chunk.len() ==> chunk[j] == st.style,
    ensures
        runs_carry(st.runs, st.text + x, so_far + chunk),
        pending_carry(ScanState { text: st.text + x, ..st }, so_far + chunk),
{
    let t = st.text;
    let t2 = t + x;
    let s2 = so_far + chunk;
    lemma_tiles_end_bound(st.runs, st.run_start);
    lemma_boundary_within(t, st.run_start);
    assert forall|j: int| 0 <= j < t2.len() implies (j < t.len() ==> #[trigger] t2.take(j) == t.take(j) && s2[j] == so_far[j])
        && (j >= t.len() ==> byte_len(t2.take(j)) >= byte_len(t) && s2[j] == st.style) by {
        if j < t.len() {
            assert(t2.take(j) =~= t.take(j));
        } else {
            assert(t2.take(j) =~= t + x.take(j - t.len()));
            crate::text::encoding::lemma_encode_utf8_append(t, x.take(j - t.len()));
        }
    }
    assert forall|k: int, j: int| 0 <= k < st.runs.len() && #[trigger] covers(st.runs[k], t2, j) implies same_style(
        st.runs[k].style,
        s2[j],
    ) by {
        if j < t.len() {
            assert(t2.take(j) == t.take(j));
            assert(covers(st.runs[k], t, j));
        } else {
            assert(st.runs[k].end <= st.run_start);
        }
    }
    assert forall|j: int| 0 <= j < t2.len() && st.run_start <= #[trigger] byte_len(t2.take(j)) implies same_style(
        st.style,
        s2[j],
    ) by {
        if j < t.len() {
            assert(t2.take(j) == t.take(j));
        }
    }
}

proof fn lemma_carry_after_flush(st: ScanState, so_far: Seq<StyleView>)
    requires
        runs_sound(st),
        so_far.len() == st.text.len(),
        runs_carry(st.runs, st.text, so_far),
        pending_carry(st, so_far),
    ensures
        runs_carry(flushed(st, byte_len(st.text), st.style).runs, st.text, so_far),
        forall|j: int| 0 <= j < st.text.len() ==> #[trigger] byte_len(st.text.take(j)) < byte_len(st.text),
{
    let t = st.text;
    let f = flushed(st, byte_len(t), st.style);
    assert(t.take(t.len() as int) =~= t);
    assert forall|j: int| 0 <= j < t.len() implies #[trigger] byte_len(t.take(j)) < byte_len(t) by {
        lemma_prefix_bytes_grow(t, j, t.len() as int);
    }
    assert forall|k: int, j: int| 0 <= k < f.runs.len() && #[trigger] covers(f.runs[k], t, j) implies same_style(
        f.runs[k].style,
        so_far[j],
    ) by {
        if k < st.runs.len() {
            assert(f.runs[k] == st.runs[k]);
        }
    }
}

/// What the scan keeps true of the styles: the runs closed so far carry
/// `so_far`'s style at each character they cover, and the characters since
/// carry the style in force, which is the fold of `open`.
#[verifier::opaque]
pub open spec fn styles_kept(st: ScanState, open: Seq<(Seq<char>, Option<Seq<char>>, TagReading)>, so_far: Seq<StyleView>) -> bool {
    &&& runs_sound(st)
    &&& style_follows(st, open)
    &&& so_far.len() == st.text.len()
    &&& runs_carry(st.runs, st.text, so_far)
    &&& pending_carry(st, so_far)
}

/// `n` copies of `s`.
pub open spec fn repeated(s: StyleView, n: nat) -> Seq<StyleView> {
    Seq::new(n, |j: int| s)
}

proof fn lemma_kept_after_text(
    st: ScanState,
    next: ScanState,
    x: Seq<char>,
    open: Seq<(Seq<char>, Option<Seq<char>>, TagReading)>,
    so_far: Seq<StyleView>,
)
    requires
        styles_kept(st, open, so_far),
        next == (ScanState { i: next.i, text: st.text + x, ..st }),
    ensures
        styles_kept(next, open, so_far + repeated(fold_style(open), x.len())),
{
    reveal(styles_kept);
    lemma_sound_after_append(st, x);
    lemma_carry_after_append(st, x, so_far, repeated(fold_style(open), x.len()));
}

proof fn lemma_kept_after_literal_close(
    st: ScanState,
    next: ScanState,
    x: Seq<char>,
    open: Seq<(Seq<char>, Option<Seq<char>>, TagReading)>,
    so_far: Seq<StyleView>,
)
    requires
        styles_kept(st, open, so_far),
        open.len() > 0,
        st.stack.last().literal,
        next == (ScanState { i: next.i, text: st.text + x, stack: st.stack.drop_last(), ..st }),
    ensures
        styles_kept(next, open.drop_last(), so_far + repeated(fold_style(open), x.len())),
        fold_style(open) == fold_style(open.drop_last()),
{
    reveal(styles_kept);
    let inner = open.drop_last();
    let last = open.last();
    assert(st.stack.last() == st.stack[st.stack.len() - 1]);
    lemma_applied_ignores_the_style(fold_style(inner), plain_style(), last.0, last.1, last.2);
    assert forall|k: int| 0 <= k < inner.len() implies (#[trigger] next.stack[k]).previous == fold_style(inner.take(k))
        && next.stack[k].literal == kept_literally(inner[k].0, inner[k].1, inner[k].2) by {
        assert(next.stack[k] == st.stack[k]);
        assert(inner.take(k) =~= open.take(k));
        assert(inner[k] == open[k]);
    }
    lemma_sound_after_append(st, x);
    lemma_carry_after_append(st, x, so_far, repeated(fold_style(open), x.len()));
}

proof fn lemma_kept_after_styling_close(
    st: ScanState,
    next: ScanState,
    open: Seq<(Seq<char>, Option<Seq<char>>, TagReading)>,
    so_far: Seq<StyleView>,
)
    requires
        styles_kept(st, open, so_far),
        open.len() > 0,
        next == (ScanState {
            i: next.i,
            stack: st.stack.drop_last(),
            style: st.stack.last().previous,
            ..flushed(st, byte_len(st.text), st.style)
        }),
    ensures
        styles_kept(next, open.drop_last(), so_far),
{
    reveal(styles_kept);
    let inner = open.drop_last();
    assert(st.stack.last() == st.stack[st.stack.len() - 1]);
    assert(inner =~= open.take(open.len() - 1));
    assert forall|k: int| 0 <= k < inner.len() implies (#[trigger] next.stack[k]).previous == fold_style(inner.take(k))
        && next.stack[k].literal == kept_literally(inner[k].0, inner[k].1, inner[k].2) by {
        assert(next.stack[k] == st.stack[k]);
        assert(inner.take(k) =~= open.take(k));
        assert(inner[k] == open[k]);
    }
    lemma_sound_after_flush(st, st.style);
    lemma_carry_after_flush(st, so_far);
}

proof fn lemma_kept_after_sprite(
    st: ScanState,
    next: ScanState,
    sprite: Seq<char>,
    open: Seq<(Seq<char>, Option<Seq<char>>, TagReading)>,
    so_far: Seq<StyleView>,
)
    requires
        styles_kept(st, open, so_far),
        runs_sound(next),
        ({
            let f = flushed(st, byte_len(st.text), st.style);
            let text = st.text.push(SPRITE_PLACEHOLDER);
            next == (ScanState {
                i: next.i,
                text,
                runs: f.runs.push(
                    RunView { start: byte_len(st.text), end: byte_len(text), style: st.style, sprite: Some(sprite) },
                ),
                run_start: byte_len(text),
                tags: st.tags + 1,
                ..st
            })
        }),
    ensures
        styles_kept(next, open, so_far + seq![fold_style(open)]),
{
    reveal(styles_kept);
    lemma_carry_after_flush(st, so_far);
    lemma_sound_after_flush(st, st.style);
    let f = flushed(st, byte_len(st.text), st.style);
    let text = st.text.push(SPRITE_PLACEHOLDER);
    assert(text =~= st.text + seq![SPRITE_PLACEHOLDER]);
    let chunk = seq![fold_style(open)];
    assert(pending_carry(f, so_far));
    lemma_carry_after_append(f, seq![SPRITE_PLACEHOLDER], so_far, chunk);
    let s2 = so_far + chunk;
    assert(text.take(st.text.len() as int) =~= st.text);
    assert(text.take(text.len() as int) =~= text);
    assert forall|k: int, j: int| 0 <= k < next.runs.len() && #[trigger] covers(next.runs[k], text, j) implies same_style(
        next.runs[k].style,
        s2[j],
    ) by {
        if k < f.runs.len() {
            assert(next.runs[k] == f.runs[k]);
        } else {
            if j < st.text.len() {
                lemma_prefix_bytes_grow(text, j, st.text.len() as int);
            }
            assert(j == st.text.len());
        }
    }
    assert forall|j: int| 0 <= j < text.len() implies #[trigger] byte_len(text.take(j)) < byte_len(text) by {
        lemma_prefix_bytes_grow(text, j, text.len() as int);
    }
}

proof fn lemma_kept_after_open(
    st: ScanState,
    next: ScanState,
    t: (Seq<char>, Option<Seq<char>>, TagReading),
    at: nat,
    x: Seq<char>,
    open: Seq<(Seq<char>, Option<Seq<char>>, TagReading)>,
    so_far: Seq<StyleView>,
) -> (so_far2: Seq<StyleView>)
    requires
        styles_kept(st, open, so_far),
        ({
            let view = OpenView { tag: t.0, at, previous: st.style, literal: false };
            match applied(st.style, t.0, t.1, t.2) {
                None => next == (ScanState {
                    i: next.i,
                    text: st.text + x,
                    stack: st.stack.push(OpenView { literal: true, ..view }),
                    tags: st.tags + 1,
                    ..st
                }),
                Some(style) => if style_eq(style, st.style) {
                    next == (ScanState { i: next.i, stack: st.stack.push(view), style, tags: st.tags + 1, ..st })
                } else {
                    next == (ScanState {
                        i: next.i,
                        stack: st.stack.push(view),
                        style,
                        tags: st.tags + 1,
                        ..flushed(st, byte_len(st.text), st.style)
                    })
                },
            }
        }),
    ensures
        styles_kept(next, open.push(t), so_far2),
        so_far2 == so_far + (if kept_literally(t.0, t.1, t.2) {
            repeated(fold_style(open), x.len())
        } else {
            Seq::empty()
        }),
{
    reveal(styles_kept);
    let open2 = open.push(t);
    lemma_applied_ignores_the_style(st.style, plain_style(), t.0, t.1, t.2);
    assert(open2.drop_last() =~= open);
    assert(open2.take(open.len() as int) =~= open);
    assert forall|k: int| 0 <= k < open2.len() implies (#[trigger] next.stack[k]).previous == fold_style(open2.take(k))
        && next.stack[k].literal == kept_literally(open2[k].0, open2[k].1, open2[k].2) by {
        if k < open.len() {
            assert(next.stack[k] == st.stack[k]);
            assert(open2.take(k) =~= open.take(k));
            assert(open2[k] == open[k]);
        }
    }
    match applied(st.style, t.0, t.1, t.2) {
        None => {
            lemma_sound_after_append(st, x);
            lemma_carry_after_append(st, x, so_far, repeated(fold_style(open), x.len()));
            so_far + repeated(fold_style(open), x.len())
        },
        Some(style) => {
            if style_eq(style, st.style) {
                assert forall|j: int|
                    0 <= j < next.text.len() && next.run_start <= #[trigger] byte_len(next.text.take(j)) implies same_style(
                    next.style,
                    so_far[j],
                ) by {
                    lemma_style_eq_through(style, st.style, so_far[j]);
                }
            } else {
                lemma_sound_after_flush(st, st.style);
                lemma_carry_after_flush(st, so_far);
            }
            assert(so_far + Seq::<StyleView>::empty() =~= so_far);
            so_far
        },
    }
}

proof fn lemma_outcome_styles(
    m: Seq<char>,
    readings: Seq<TagReading>,
    st: ScanState,
    open: Seq<(Seq<char>, Option<Seq<char>>, TagReading)>,
    so_far: Seq<StyleView>,
)
    requires
        styles_kept(st, open, so_far),
    ensures
        outcome_from(m, readings, st) matches Outcome::Parsed { text, runs } ==> {
            let styles = so_far + styles_from(m, readings, st.i, open, st.tags);
            &&& styles.len() == text.len()
            &&& runs_carry(runs, text, styles)
        },
    decreases m.len() - st.i,
{
    if st.i < 0 || st.i >= m.len() {
        if innermost_styling(st.stack) is None {
            reveal(styles_kept);
            lemma_carry_after_flush(st, so_far);
            assert(so_far + styles_from(m, readings, st.i, open, st.tags) =~= so_far);
        }
        return;
    }
    let i = st.i;
    if let Step::Next(next) = step(m, readings, st) {
        if i < next.i <= m.len() {
            lemma_piece_in_bounds(m, i);
            let here = fold_style(open);
            match piece_at(m, i) {
                Piece::Plain => {
                    assert(st.text.push(m[i]) =~= st.text + seq![m[i]]);
                    assert(next =~= ScanState { i: next.i, text: st.text + seq![m[i]], ..st });
                    lemma_kept_after_text(st, next, seq![m[i]], open, so_far);
                    lemma_outcome_styles(m, readings, next, open, so_far + repeated(here, 1));
                    assert(so_far + repeated(here, 1) + styles_from(m, readings, next.i, open, next.tags) =~= so_far
                        + styles_from(m, readings, i, open, st.tags));
                },
                Piece::Escape => {
                    assert(st.text.push('[') =~= st.text + seq!['[']);
                    assert(next =~= ScanState { i: next.i, text: st.text + seq!['['], ..st });
                    lemma_kept_after_text(st, next, seq!['['], open, so_far);
                    lemma_outcome_styles(m, readings, next, open, so_far + repeated(here, 1));
                    assert(so_far + repeated(here, 1) + styles_from(m, readings, next.i, open, next.tags) =~= so_far
                        + styles_from(m, readings, i, open, st.tags));
                },
                Piece::Close { .. } => {
                    let s2 = lemma_close_glue(m, readings, st, next, open, so_far);
                    lemma_outcome_styles(m, readings, next, open.drop_last(), s2);
                },
                Piece::Open { name, .. } => {
                    if chars_of(m, name) == "sprite"@ {
                        let s2 = lemma_sprite_glue(m, readings, st, next, open, so_far);
                        lemma_outcome_styles(m, readings, next, open, s2);
                    } else {
                        let r = lemma_open_glue(m, readings, st, next, open, so_far);
                        lemma_outcome_styles(m, readings, next, r.0, r.1);
                    }
                },
            }
        }
    }
}

proof fn lemma_kept_facts(st: ScanState, open: Seq<(Seq<char>, Option<Seq<char>>, TagReading)>, so_far: Seq<StyleView>)
    requires
        styles_kept(st, open, so_far),
    ensures
        st.stack.len() == open.len(),
        st.style == fold_style(open),
        runs_sound(st),
        open.len() > 0 ==> st.stack.last().literal == kept_literally(open.last().0, open.last().1, open.last().2),
{
    reveal(styles_kept);
    if open.len() > 0 {
        assert(st.stack.last() == st.stack[st.stack.len() - 1]);
    }
}

proof fn lemma_close_glue(
    m: Seq<char>,
    readings: Seq<TagReading>,
    st: ScanState,
    next: ScanState,
    open: Seq<(Seq<char>, Option<Seq<char>>, TagReading)>,
    so_far: Seq<StyleView>,
) -> (so_far2: Seq<StyleView>)
    requires
        styles_kept(st, open, so_far),
        0 <= st.i < m.len(),
        step(m, readings, st) == Step::Next(next),
        st.i < next.i <= m.len(),
        piece_at(m, st.i) is Close,
    ensures
        styles_kept(next, open.drop_last(), so_far2),
        so_far2 + styles_from(m, readings, next.i, open.drop_last(), next.tags) == so_far + styles_from(
            m,
            readings,
            st.i,
            open,
            st.tags,
        ),
{
    lemma_kept_facts(st, open, so_far);
    let i = st.i;
    let end = next.i;
    let here = fold_style(open);
    let inner = open.drop_last();
    assert(open.len() > 0);
    if st.stack.last().literal {
        let x = m.subrange(i, end);
        lemma_kept_after_literal_close(st, next, x, open, so_far);
        let s2 = so_far + repeated(here, x.len());
        assert(s2 + styles_from(m, readings, end, inner, next.tags) =~= so_far + styles_from(m, readings, i, open, st.tags));
        s2
    } else {
        lemma_kept_after_styling_close(st, next, open, so_far);
        assert(so_far + styles_from(m, readings, end, inner, next.tags) =~= so_far + styles_from(m, readings, i, open, st.tags));
        so_far
    }
}

proof fn lemma_sprite_glue(
    m: Seq<char>,
    readings: Seq<TagReading>,
    st: ScanState,
    next: ScanState,
    open: Seq<(Seq<char>, Option<Seq<char>>, TagReading)>,
    so_far: Seq<StyleView>,
) -> (so_far2: Seq<StyleView>)
    requires
        styles_kept(st, open, so_far),
        0 <= st.i < m.len(),
        step(m, readings, st) == Step::Next(next),
        st.i < next.i <= m.len(),
        piece_at(m, st.i) matches Piece::Open { name, .. } && chars_of(m, name) == "sprite"@,
    ensures
        styles_kept(next, open, so_far2),
        so_far2 + styles_from(m, readings, next.i, open, next.tags) == so_far + styles_from(m, readings, st.i, open, st.tags),
{
    lemma_kept_facts(st, open, so_far);
    lemma_step_keeps_runs_sound(m, readings, st);
    let i = st.i;
    let v = match piece_at(m, i) {
        Piece::Open { value, .. } => match value {
            Some(r) => Some(chars_of(m, r)),
            None => None,
        },
        _ => None,
    };
    lemma_kept_after_sprite(st, next, v->0, open, so_far);
    let s2 = so_far + seq![fold_style(open)];
    assert(s2 + styles_from(m, readings, next.i, open, next.tags) =~= so_far + styles_from(m, readings, i, open, st.tags));
    s2
}

proof fn lemma_open_glue(
    m: Seq<char>,
    readings: Seq<TagReading>,
    st: ScanState,
    next: ScanState,
    open: Seq<(Seq<char>, Option<Seq<char>>, TagReading)>,
    so_far: Seq<StyleView>,
) -> (r: (Seq<(Seq<char>, Option<Seq<char>>, TagReading)>, Seq<StyleView>))
    requires
        styles_kept(st, open, so_far),
        0 <= st.i < m.len(),
        step(m, readings, st) == Step::Next(next),
        st.i < next.i <= m.len(),
        piece_at(m, st.i) matches Piece::Open { name, .. } && chars_of(m, name) != "sprite"@,
    ensures
        styles_kept(next, r.0, r.1),
        r.1 + styles_from(m, readings, next.i, r.0, next.tags) == so_far + styles_from(m, readings, st.i, open, st.tags),
{
    lemma_kept_facts(st, open, so_far);
    let i = st.i;
    let end = next.i;
    let (n, v) = match piece_at(m, i) {
        Piece::Open { name, value, .. } => (
            chars_of(m, name),
            match value {
                Some(r) => Some(chars_of(m, r)),
                None => None,
            },
        ),
        _ => (Seq::empty(), None),
    };
    let t = tag_read(n, v, reading_at(readings, st.tags));
    let x = m.subrange(i, end);
    let s2 = lemma_kept_after_open(st, next, t, byte_len(m.take(i)), x, open, so_far);
    assert(s2 + styles_from(m, readings, end, open.push(t), next.tags) =~= so_far + styles_from(m, readings, i, open, st.tags));
    (open.push(t), s2)
}

/// Every run of a parse carries the style in force at each character it
/// covers: the fold of the tags open around that character, outermost
/// first, each this vocabulary uses applied to the plain style (the
/// numbers compared as floats, so `0.0` and `-0.0` are the same size).
pub proof fn lemma_runs_carry_the_style_in_force(m: Seq<char>, readings: Seq<TagReading>)
    ensures
        parse_outcome(m, readings) matches Outcome::Parsed { text, runs } ==> {
            let styles = styles_from(m, readings, 0, Seq::empty(), 0);
            &&& styles.len() == text.len()
            &&& runs_carry(runs, text, styles)
        },
{
    let st = start_state();
    assert(st.text.take(0) =~= Seq::<char>::empty());
    assert(byte_len(st.text.take(0)) == 0);
    lemma_end_is_a_boundary(st.text);
    assert(Seq::<StyleView>::empty() + styles_from(m, readings, 0, Seq::empty(), 0) =~= styles_from(
        m,
        readings,
        0,
        Seq::empty(),
        0,
    ));
    assert(styles_kept(st, Seq::empty(), Seq::empty())) by {
        reveal(styles_kept);
    }
    lemma_outcome_styles(m, readings, st, Seq::empty(), Seq::empty());
}

} // verus!
