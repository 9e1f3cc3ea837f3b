//! Typography roles: which bundled face a run of text uses, and the size,
//! colour and case each semantic text role takes.
//!
//! The concrete `font_id` of each face is assigned when the atlas loads its
//! fonts, so roles resolve through a registry rather than being threaded
//! through every builder call site. Roles collapse onto whichever face
//! actually loaded: a missing cut degrades to the wrong weight instead of
//! vanishing.
//!
//! Numerics are set in the monospaced cut, whose figures are tabular by
//! construction, so scrubbing a value never shifts its row.

use vstd::prelude::*;
use crate::text::compose::Composer;
use crate::theme::{palette, semantic_colors, Color, ThemeId};

verus! {

broadcast use vstd::array::group_array_axioms;

/// A bundled face. Static cuts only.
#[derive(Clone, Copy, Debug, PartialEq, Eq, Structural, Hash)]
pub enum FontRole {
    /// Inter Regular: body copy, menu rows, log lines.
    UiRegular,
    /// Inter Medium: selected rows, property labels, chrome buttons.
    UiMedium,
    /// Inter SemiBold: section headers, panel titles.
    UiSemiBold,
    /// JetBrains Mono Regular: timestamps, paths, console.
    Mono,
    /// JetBrains Mono Medium: numeric field values, tabular by construction.
    MonoMedium,
}

/// How many roles there are.
pub const FONT_ROLE_COUNT: usize = 5;

/// A role's slot in the registry.
pub open spec fn role_slot(role: FontRole) -> int {
    match role {
        FontRole::UiRegular => 0,
        FontRole::UiMedium => 1,
        FontRole::UiSemiBold => 2,
        FontRole::Mono => 3,
        FontRole::MonoMedium => 4,
    }
}

fn role_index(role: FontRole) -> (i: usize)
    ensures
        i == role_slot(role),
        i < FONT_ROLE_COUNT,
{
    match role {
        FontRole::UiRegular => 0,
        FontRole::UiMedium => 1,
        FontRole::UiSemiBold => 2,
        FontRole::Mono => 3,
        FontRole::MonoMedium => 4,
    }
}

impl FontRole {
    /// Every role, in registry order.
    pub const ALL: [FontRole; FONT_ROLE_COUNT] = [
        FontRole::UiRegular,
        FontRole::UiMedium,
        FontRole::UiSemiBold,
        FontRole::Mono,
        FontRole::MonoMedium,
    ];
}

/// Semantic text styles from the approved token sheet.
#[derive(Clone, Copy, Debug, PartialEq, Eq, Structural, Hash)]
pub enum TextRole {
    /// 22 / 600: splash and empty states.
    Display,
    /// 16 / 600: modal and panel titles.
    Title,
    /// 13 / 600: inspector section headers in sentence case.
    Section,
    /// 11 / 600 uppercase, tracked: panel and drawer headers.
    SectionCaps,
    /// 13 / 400: rows, menus, log.
    Body,
    /// 13 / 500: selected and dirty rows.
    BodyStrong,
    /// 12 / 500: property labels.
    Label,
    /// 11 / 400: status text and metadata.
    Caption,
    /// 12 / 400 mono: log, console, paths.
    Mono,
    /// 12 / 500 mono: numeric values.
    MonoStrong,
}

/// Maps every [`FontRole`] onto a concrete atlas `font_id`.
#[derive(Clone, Copy, Debug, PartialEq, Eq)]
pub struct FontRegistry {
    ids: [u8; FONT_ROLE_COUNT],
}

impl View for FontRegistry {
    /// The face id of each role, in registry order.
    type V = Seq<u8>;

    closed spec fn view(&self) -> Seq<u8> {
        self.ids@
    }
}

impl FontRegistry {
    /// Every role resolves to one face: before install, and in layouts built
    /// without a GPU.
    pub fn uniform(id: u8) -> (r: Self)
        ensures
            r@ == seq![id, id, id, id, id],
    {
        let r = FontRegistry { ids: [id, id, id, id, id] };
        assert(r@ =~= seq![id, id, id, id, id]);
        r
    }

    /// A registry with one face id per role, in registry order.
    pub fn new(ids: [u8; FONT_ROLE_COUNT]) -> (r: Self)
        ensures
            r@ == ids@,
    {
        FontRegistry { ids }
    }

    /// The face id a role resolves to.
    pub fn id(&self, role: FontRole) -> (id: u8)
        ensures
            id == self@[role_slot(role)],
    {
        self.ids[role_index(role)]
    }

    /// Point one role at another role's face, for a cut that failed to load.
    pub fn alias(&mut self, role: FontRole, to: FontRole)
        ensures
            final(self)@ == old(self)@.update(role_slot(role), old(self)@[role_slot(to)]),
    {
        let face = self.ids[role_index(to)];
        self.ids[role_index(role)] = face;
    }

    /// Point a role at a face id.
    pub fn set(&mut self, role: FontRole, id: u8)
        ensures
            final(self)@ == old(self)@.update(role_slot(role), id),
    {
        self.ids[role_index(role)] = id;
    }
}

impl Default for FontRegistry {
    fn default() -> (r: Self)
        ensures
            r@ == seq![0u8, 0u8, 0u8, 0u8, 0u8],
    {
        FontRegistry::uniform(0)
    }
}

/// The registry always has one face per role.
pub proof fn lemma_registry_covers_every_role(r: FontRegistry, role: FontRole)
    ensures
        r@.len() == FONT_ROLE_COUNT,
        0 <= role_slot(role) < r@.len(),
{
}

/// A resolved text role: its size in whole logical pixels (the type scale is
/// shared by both themes), its face, its colour, and whether it renders
/// uppercase.
#[derive(Clone, Copy, Debug, PartialEq, Eq)]
pub struct TextStyle {
    pub px: u32,
    pub font: FontRole,
    pub color: Color,
    pub uppercase: bool,
}

/// The style a role takes in a theme.
pub open spec fn text_style_of(theme: ThemeId, role: TextRole) -> TextStyle {
    let c = palette(theme).text;
    let plain = |px: u32, font: FontRole, color: Color| TextStyle { px, font, color, uppercase: false };
    match role {
        TextRole::Display => plain(22, FontRole::UiSemiBold, c.primary.0),
        TextRole::Title => plain(16, FontRole::UiSemiBold, c.primary.0),
        TextRole::Section => plain(13, FontRole::UiSemiBold, c.primary.0),
        TextRole::SectionCaps => TextStyle { px: 11, font: FontRole::UiSemiBold, color: c.primary.0, uppercase: true },
        TextRole::Body => plain(13, FontRole::UiRegular, c.primary.0),
        TextRole::BodyStrong => plain(13, FontRole::UiMedium, c.primary.0),
        TextRole::Label => plain(12, FontRole::UiMedium, c.secondary.0),
        TextRole::Caption => plain(11, FontRole::UiRegular, c.muted.0),
        TextRole::Mono => plain(12, FontRole::Mono, c.secondary.0),
        TextRole::MonoStrong => plain(12, FontRole::MonoMedium, c.primary.0),
    }
}

/// What `str::to_uppercase` makes of a text.
pub uninterp spec fn uppercased(text: Seq<char>) -> Seq<char>;

/// `str::to_uppercase`: the Unicode uppercase mapping of each character.
/// The contract names the result and does not spell out the mapping.
#[verifier::external_body]
fn to_uppercase(text: &str) -> (s: String)
    ensures
        s@ == uppercased(text@),
{
    text.to_uppercase()
}

impl TextStyle {
    /// Extra advance per glyph, in hundredths of a logical pixel: 8% of the
    /// size for the uppercase header role, nothing otherwise.
    pub fn tracking_hundredths(&self) -> (t: u64)
        ensures
            t == if self.uppercase { self.px * 8 } else { 0 },
    {
        if self.uppercase {
            self.px as u64 * 8
        } else {
            0
        }
    }

    /// Apply the role's case transform to a label.
    pub fn transform(&self, text: &str) -> (s: String)
        ensures
            s@ == if self.uppercase { uppercased(text@) } else { text@ },
    {
        if self.uppercase {
            to_uppercase(text)
        } else {
            let c = Composer::new().push_str(text);
            assert(Seq::<char>::empty() + text@ =~= text@);
            c.finish()
        }
    }

    /// The same style in another colour.
    pub fn with_color(self, color: Color) -> (s: Self)
        ensures
            s == (TextStyle { color, ..self }),
    {
        TextStyle { color, ..self }
    }
}

/// Resolve a semantic role in a theme.
pub fn text_style(theme: ThemeId, role: TextRole) -> (s: TextStyle)
    ensures
        s == text_style_of(theme, role),
{
    let c = semantic_colors(theme).text;
    let plain = |px: u32, font: FontRole, color: Color| -> (s: TextStyle)
        ensures
            s == (TextStyle { px, font, color, uppercase: false }),
        { TextStyle { px, font, color, uppercase: false } };
    match role {
        TextRole::Display => plain(22, FontRole::UiSemiBold, c.primary.bytes()),
        TextRole::Title => plain(16, FontRole::UiSemiBold, c.primary.bytes()),
        TextRole::Section => plain(13, FontRole::UiSemiBold, c.primary.bytes()),
        TextRole::SectionCaps => TextStyle { px: 11, font: FontRole::UiSemiBold, color: c.primary.bytes(), uppercase: true },
        TextRole::Body => plain(13, FontRole::UiRegular, c.primary.bytes()),
        TextRole::BodyStrong => plain(13, FontRole::UiMedium, c.primary.bytes()),
        TextRole::Label => plain(12, FontRole::UiMedium, c.secondary.bytes()),
        TextRole::Caption => plain(11, FontRole::UiRegular, c.muted.bytes()),
        TextRole::Mono => plain(12, FontRole::Mono, c.secondary.bytes()),
        TextRole::MonoStrong => plain(12, FontRole::MonoMedium, c.primary.bytes()),
    }
}

/// Numbers are set in the tabular monospaced cut, and only the uppercase
/// header role is tracked and uppercased.
pub proof fn lemma_numerics_are_tabular(theme: ThemeId, role: TextRole)
    ensures
        text_style_of(theme, TextRole::MonoStrong).font == FontRole::MonoMedium,
        text_style_of(theme, role).uppercase <==> role == TextRole::SectionCaps,
        text_style_of(ThemeId::Nocturne, role).px == text_style_of(ThemeId::Dawn, role).px,
{
}

} // verus!
