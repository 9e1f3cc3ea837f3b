//! Nocturne Atelier colour tokens.
//!
//! Colours are authored sRGB bytes with straight (unassociated) alpha. The
//! render pass decodes their RGB channels to linear exactly once before
//! compositing. Two snapshots ship: the dark Nocturne and the light Dawn.
//! Their colour roles are here; their sizes, opacities and elevations are
//! floating-point and live with the draw layer.

use vstd::prelude::*;

verus! {

/// A widget paint colour: authored sRGB bytes, straight alpha.
pub type Color = [u8; 4];

/// Explicit authored-sRGB colour used by the theme service.
#[derive(Clone, Copy, Debug, PartialEq, Eq)]
pub struct Srgb8(pub Color);

impl Srgb8 {
    /// A fully opaque colour.
    pub fn opaque(r: u8, g: u8, b: u8) -> (c: Self)
        ensures
            c.0 == [r, g, b, 0xFFu8],
    {
        Srgb8([r, g, b, 0xFF])
    }

    /// A colour with straight alpha `a`.
    pub fn rgba(r: u8, g: u8, b: u8, a: u8) -> (c: Self)
        ensures
            c.0 == [r, g, b, a],
    {
        Srgb8([r, g, b, a])
    }

    /// The colour's bytes.
    pub fn bytes(self) -> (c: Color)
        ensures
            c == self.0,
    {
        self.0
    }
}

#[derive(Clone, Copy, Debug)]
pub struct SurfaceTokens {
    pub window: Srgb8,
    pub canvas: Srgb8,
    pub panel: Srgb8,
    pub header: Srgb8,
    pub raised: Srgb8,
    pub input: Srgb8,
    pub popup: Srgb8,
    pub hover: Srgb8,
    pub selected: Srgb8,
    pub modal_scrim: Srgb8,
}

#[derive(Clone, Copy, Debug)]
pub struct TextTokens {
    pub primary: Srgb8,
    /// One step beyond `primary`, for the label of a selected or hovered row,
    /// so selection reads as a lift rather than a recolour.
    pub emphasis: Srgb8,
    pub secondary: Srgb8,
    pub muted: Srgb8,
    pub disabled: Srgb8,
    pub inverse: Srgb8,
    pub link: Srgb8,
}

#[derive(Clone, Copy, Debug)]
pub struct BorderTokens {
    pub subtle: Srgb8,
    pub default: Srgb8,
    pub strong: Srgb8,
    pub focus: Srgb8,
}

#[derive(Clone, Copy, Debug)]
pub struct AccentTokens {
    pub default: Srgb8,
    pub hover: Srgb8,
    pub pressed: Srgb8,
    pub selected_bg: Srgb8,
    pub selected_rail: Srgb8,
}

#[derive(Clone, Copy, Debug)]
pub struct StatusTokens {
    pub info: Srgb8,
    pub success: Srgb8,
    pub warning: Srgb8,
    pub error: Srgb8,
    pub busy: Srgb8,
}

#[derive(Clone, Copy, Debug)]
pub struct SemanticColors {
    pub surface: SurfaceTokens,
    pub text: TextTokens,
    pub border: BorderTokens,
    pub accent: AccentTokens,
    pub status: StatusTokens,
    pub folder: Srgb8,
}

/// Durations, in milliseconds.
#[derive(Clone, Copy, Debug)]
pub struct MotionTokens {
    pub press_ms: u64,
    pub hover_ms: u64,
    pub popup_ms: u64,
    pub drawer_ms: u64,
    pub tooltip_delay_ms: u64,
}

/// Which snapshot the recipe layer reads.
#[derive(Clone, Copy, Debug, PartialEq, Eq, Structural)]
pub enum ThemeId {
    Nocturne,
    Dawn,
}

impl ThemeId {
    /// The byte the active selection is stored as.
    pub open spec fn spec_stored(self) -> u8 {
        match self {
            ThemeId::Nocturne => 0,
            ThemeId::Dawn => 1,
        }
    }

    /// The byte the active selection is stored as: 0 for Nocturne, 1 for
    /// Dawn.
    pub fn stored(self) -> (b: u8)
        ensures
            b == self.spec_stored(),
    {
        match self {
            ThemeId::Nocturne => 0,
            ThemeId::Dawn => 1,
        }
    }

    /// The selection a stored byte names. Only 1 names Dawn; anything else,
    /// including a byte nothing ever stored, falls back to Nocturne.
    pub fn from_stored(b: u8) -> (id: ThemeId)
        ensures
            id == (if b == 1 { ThemeId::Dawn } else { ThemeId::Nocturne }),
    {
        if b == 1 {
            ThemeId::Dawn
        } else {
            ThemeId::Nocturne
        }
    }
}

/// Storing a selection and reading it back gives the same selection.
pub proof fn lemma_theme_selection_round_trips(id: ThemeId)
    ensures
        (if id.spec_stored() == 1 { ThemeId::Dawn } else { ThemeId::Nocturne }) == id,
{
}

/// The colour roles of a theme snapshot.
pub open spec fn palette(id: ThemeId) -> SemanticColors {
    match id {
        ThemeId::Nocturne => SemanticColors {
            surface: SurfaceTokens {
                window: Srgb8([0x14, 0x16, 0x1C, 0xFF]),
                canvas: Srgb8([0x18, 0x1A, 0x20, 0xFF]),
                panel: Srgb8([0x1C, 0x1E, 0x26, 0xFF]),
                header: Srgb8([0x22, 0x25, 0x2F, 0xFF]),
                raised: Srgb8([0x28, 0x2B, 0x36, 0xFF]),
                input: Srgb8([0x12, 0x14, 0x1A, 0xFF]),
                popup: Srgb8([0x22, 0x25, 0x2F, 0xFF]),
                hover: Srgb8([0x31, 0x35, 0x43, 0xFF]),
                selected: Srgb8([0x7A, 0x86, 0xFF, 0x29]),
                modal_scrim: Srgb8([0x0A, 0x0B, 0x0F, 0x9E]),
            },
            text: TextTokens {
                primary: Srgb8([0xD8, 0xDC, 0xE8, 0xFF]),
                emphasis: Srgb8([0xF2, 0xF4, 0xFF, 0xFF]),
                secondary: Srgb8([0x9A, 0xA3, 0xB5, 0xFF]),
                muted: Srgb8([0x8C, 0x95, 0xAA, 0xFF]),
                disabled: Srgb8([0x5C, 0x64, 0x78, 0xFF]),
                inverse: Srgb8([0x0E, 0x10, 0x14, 0xFF]),
                link: Srgb8([0x94, 0x9C, 0xFF, 0xFF]),
            },
            border: BorderTokens {
                subtle: Srgb8([0x22, 0x25, 0x2F, 0xFF]),
                default: Srgb8([0x31, 0x35, 0x43, 0xFF]),
                strong: Srgb8([0x4A, 0x4F, 0x5E, 0xFF]),
                focus: Srgb8([0x94, 0x9C, 0xFF, 0xFF]),
            },
            accent: AccentTokens {
                default: Srgb8([0x7A, 0x86, 0xFF, 0xFF]),
                hover: Srgb8([0x94, 0x9C, 0xFF, 0xFF]),
                pressed: Srgb8([0x5C, 0x68, 0xE0, 0xFF]),
                selected_bg: Srgb8([0x7A, 0x86, 0xFF, 0x29]),
                selected_rail: Srgb8([0x7A, 0x86, 0xFF, 0xFF]),
            },
            status: StatusTokens {
                info: Srgb8([0x59, 0xB8, 0xD6, 0xFF]),
                success: Srgb8([0x5D, 0xCE, 0x9A, 0xFF]),
                warning: Srgb8([0xE6, 0xB0, 0x4A, 0xFF]),
                error: Srgb8([0xE6, 0x70, 0x70, 0xFF]),
                busy: Srgb8([0x7A, 0x86, 0xFF, 0xFF]),
            },
            folder: Srgb8([0xC4, 0xA5, 0x74, 0xFF]),
        },
        ThemeId::Dawn => SemanticColors {
            surface: SurfaceTokens {
                window: Srgb8([0xE4, 0xE6, 0xED, 0xFF]),
                canvas: Srgb8([0xED, 0xEF, 0xF4, 0xFF]),
                panel: Srgb8([0xF5, 0xF6, 0xFA, 0xFF]),
                header: Srgb8([0xE8, 0xEA, 0xF1, 0xFF]),
                raised: Srgb8([0xFF, 0xFF, 0xFF, 0xFF]),
                input: Srgb8([0xFF, 0xFF, 0xFF, 0xFF]),
                popup: Srgb8([0xFF, 0xFF, 0xFF, 0xFF]),
                hover: Srgb8([0xDD, 0xE0, 0xEA, 0xFF]),
                selected: Srgb8([0x4A, 0x56, 0xE0, 0x29]),
                modal_scrim: Srgb8([0x14, 0x16, 0x1E, 0x73]),
            },
            text: TextTokens {
                primary: Srgb8([0x1A, 0x1D, 0x26, 0xFF]),
                emphasis: Srgb8([0x07, 0x09, 0x10, 0xFF]),
                secondary: Srgb8([0x45, 0x4B, 0x5C, 0xFF]),
                muted: Srgb8([0x5C, 0x63, 0x75, 0xFF]),
                disabled: Srgb8([0x9A, 0xA0, 0xAE, 0xFF]),
                inverse: Srgb8([0xFF, 0xFF, 0xFF, 0xFF]),
                link: Srgb8([0x2E, 0x39, 0xA8, 0xFF]),
            },
            border: BorderTokens {
                subtle: Srgb8([0xDD, 0xE0, 0xE8, 0xFF]),
                default: Srgb8([0xC3, 0xC8, 0xD4, 0xFF]),
                strong: Srgb8([0x9A, 0xA0, 0xAE, 0xFF]),
                focus: Srgb8([0x2E, 0x39, 0xA8, 0xFF]),
            },
            accent: AccentTokens {
                default: Srgb8([0x3A, 0x46, 0xC8, 0xFF]),
                hover: Srgb8([0x2E, 0x39, 0xA8, 0xFF]),
                pressed: Srgb8([0x24, 0x2D, 0x86, 0xFF]),
                selected_bg: Srgb8([0x3A, 0x46, 0xC8, 0x29]),
                selected_rail: Srgb8([0x3A, 0x46, 0xC8, 0xFF]),
            },
            status: StatusTokens {
                info: Srgb8([0x14, 0x62, 0x7C, 0xFF]),
                success: Srgb8([0x15, 0x60, 0x3E, 0xFF]),
                warning: Srgb8([0x6E, 0x4E, 0x08, 0xFF]),
                error: Srgb8([0x9B, 0x1C, 0x1C, 0xFF]),
                busy: Srgb8([0x3A, 0x46, 0xC8, 0xFF]),
            },
            folder: Srgb8([0x8A, 0x62, 0x2C, 0xFF]),
        },
    }
}

/// The colour roles of a theme snapshot.
pub fn semantic_colors(id: ThemeId) -> (c: SemanticColors)
    ensures
        c == palette(id),
{
    match id {
        ThemeId::Nocturne => SemanticColors {
            surface: SurfaceTokens {
                window: Srgb8([0x14, 0x16, 0x1C, 0xFF]),
                canvas: Srgb8([0x18, 0x1A, 0x20, 0xFF]),
                panel: Srgb8([0x1C, 0x1E, 0x26, 0xFF]),
                header: Srgb8([0x22, 0x25, 0x2F, 0xFF]),
                raised: Srgb8([0x28, 0x2B, 0x36, 0xFF]),
                input: Srgb8([0x12, 0x14, 0x1A, 0xFF]),
                popup: Srgb8([0x22, 0x25, 0x2F, 0xFF]),
                hover: Srgb8([0x31, 0x35, 0x43, 0xFF]),
                selected: Srgb8([0x7A, 0x86, 0xFF, 0x29]),
                modal_scrim: Srgb8([0x0A, 0x0B, 0x0F, 0x9E]),
            },
            text: TextTokens {
                primary: Srgb8([0xD8, 0xDC, 0xE8, 0xFF]),
                emphasis: Srgb8([0xF2, 0xF4, 0xFF, 0xFF]),
                secondary: Srgb8([0x9A, 0xA3, 0xB5, 0xFF]),
                muted: Srgb8([0x8C, 0x95, 0xAA, 0xFF]),
                disabled: Srgb8([0x5C, 0x64, 0x78, 0xFF]),
                inverse: Srgb8([0x0E, 0x10, 0x14, 0xFF]),
                link: Srgb8([0x94, 0x9C, 0xFF, 0xFF]),
            },
            border: BorderTokens {
                subtle: Srgb8([0x22, 0x25, 0x2F, 0xFF]),
                default: Srgb8([0x31, 0x35, 0x43, 0xFF]),
                strong: Srgb8([0x4A, 0x4F, 0x5E, 0xFF]),
                focus: Srgb8([0x94, 0x9C, 0xFF, 0xFF]),
            },
            accent: AccentTokens {
                default: Srgb8([0x7A, 0x86, 0xFF, 0xFF]),
                hover: Srgb8([0x94, 0x9C, 0xFF, 0xFF]),
                pressed: Srgb8([0x5C, 0x68, 0xE0, 0xFF]),
                selected_bg: Srgb8([0x7A, 0x86, 0xFF, 0x29]),
                selected_rail: Srgb8([0x7A, 0x86, 0xFF, 0xFF]),
            },
            status: StatusTokens {
                info: Srgb8([0x59, 0xB8, 0xD6, 0xFF]),
                success: Srgb8([0x5D, 0xCE, 0x9A, 0xFF]),
                warning: Srgb8([0xE6, 0xB0, 0x4A, 0xFF]),
                error: Srgb8([0xE6, 0x70, 0x70, 0xFF]),
                busy: Srgb8([0x7A, 0x86, 0xFF, 0xFF]),
            },
            folder: Srgb8([0xC4, 0xA5, 0x74, 0xFF]),
        },
        ThemeId::Dawn => SemanticColors {
            surface: SurfaceTokens {
                window: Srgb8([0xE4, 0xE6, 0xED, 0xFF]),
                canvas: Srgb8([0xED, 0xEF, 0xF4, 0xFF]),
                panel: Srgb8([0xF5, 0xF6, 0xFA, 0xFF]),
                header: Srgb8([0xE8, 0xEA, 0xF1, 0xFF]),
                raised: Srgb8([0xFF, 0xFF, 0xFF, 0xFF]),
                input: Srgb8([0xFF, 0xFF, 0xFF, 0xFF]),
                popup: Srgb8([0xFF, 0xFF, 0xFF, 0xFF]),
                hover: Srgb8([0xDD, 0xE0, 0xEA, 0xFF]),
                selected: Srgb8([0x4A, 0x56, 0xE0, 0x29]),
                modal_scrim: Srgb8([0x14, 0x16, 0x1E, 0x73]),
            },
            text: TextTokens {
                primary: Srgb8([0x1A, 0x1D, 0x26, 0xFF]),
                emphasis: Srgb8([0x07, 0x09, 0x10, 0xFF]),
                secondary: Srgb8([0x45, 0x4B, 0x5C, 0xFF]),
                muted: Srgb8([0x5C, 0x63, 0x75, 0xFF]),
                disabled: Srgb8([0x9A, 0xA0, 0xAE, 0xFF]),
                inverse: Srgb8([0xFF, 0xFF, 0xFF, 0xFF]),
                link: Srgb8([0x2E, 0x39, 0xA8, 0xFF]),
            },
            border: BorderTokens {
                subtle: Srgb8([0xDD, 0xE0, 0xE8, 0xFF]),
                default: Srgb8([0xC3, 0xC8, 0xD4, 0xFF]),
                strong: Srgb8([0x9A, 0xA0, 0xAE, 0xFF]),
                focus: Srgb8([0x2E, 0x39, 0xA8, 0xFF]),
            },
            accent: AccentTokens {
                default: Srgb8([0x3A, 0x46, 0xC8, 0xFF]),
                hover: Srgb8([0x2E, 0x39, 0xA8, 0xFF]),
                pressed: Srgb8([0x24, 0x2D, 0x86, 0xFF]),
                selected_bg: Srgb8([0x3A, 0x46, 0xC8, 0x29]),
                selected_rail: Srgb8([0x3A, 0x46, 0xC8, 0xFF]),
            },
            status: StatusTokens {
                info: Srgb8([0x14, 0x62, 0x7C, 0xFF]),
                success: Srgb8([0x15, 0x60, 0x3E, 0xFF]),
                warning: Srgb8([0x6E, 0x4E, 0x08, 0xFF]),
                error: Srgb8([0x9B, 0x1C, 0x1C, 0xFF]),
                busy: Srgb8([0x3A, 0x46, 0xC8, 0xFF]),
            },
            folder: Srgb8([0x8A, 0x62, 0x2C, 0xFF]),
        },
    }
}

/// The warm secondary of a theme: asset and content identity, never a
/// state cue.
pub open spec fn spec_ember(id: ThemeId) -> Srgb8 {
    match id {
        ThemeId::Nocturne => Srgb8([0xC4, 0xA5, 0x74, 0xFF]),
        ThemeId::Dawn => Srgb8([0x8A, 0x62, 0x2C, 0xFF]),
    }
}

/// The warm secondary of a theme.
pub fn ember(id: ThemeId) -> (c: Srgb8)
    ensures
        c == spec_ember(id),
{
    match id {
        ThemeId::Nocturne => Srgb8([0xC4, 0xA5, 0x74, 0xFF]),
        ThemeId::Dawn => Srgb8([0x8A, 0x62, 0x2C, 0xFF]),
    }
}

/// Whether a theme is the light one.
pub fn is_light(id: ThemeId) -> (b: bool)
    ensures
        b == (id is Dawn),
{
    matches!(id, ThemeId::Dawn)
}

/// A theme's durations. Both themes share them: a theme swap changes paint
/// and nothing else.
pub fn motion(id: ThemeId) -> (m: MotionTokens)
    ensures
        m == (MotionTokens { press_ms: 90, hover_ms: 120, popup_ms: 140, drawer_ms: 200, tooltip_delay_ms: 400 }),
{
    MotionTokens { press_ms: 90, hover_ms: 120, popup_ms: 140, drawer_ms: 200, tooltip_delay_ms: 400 }
}

pub const TRANSPARENT: Color = [0x00, 0x00, 0x00, 0x00];
pub const BLACK: Color = [0x00, 0x00, 0x00, 0xFF];
pub const WHITE: Color = [0xFF, 0xFF, 0xFF, 0xFF];

// Compatibility aliases into the Nocturne snapshot.
pub const BG_VOID: Color = [0x14, 0x16, 0x1C, 0xFF];
pub const BG_CONTENT: Color = [0x18, 0x1A, 0x20, 0xFF];
pub const BG_PANEL: Color = [0x1C, 0x1E, 0x26, 0xFF];
pub const BG_HEADER: Color = [0x22, 0x25, 0x2F, 0xFF];
pub const BG_RAISED: Color = [0x28, 0x2B, 0x36, 0xFF];
pub const BG_INPUT: Color = [0x12, 0x14, 0x1A, 0xFF];
pub const BG_HOVER: Color = [0x31, 0x35, 0x43, 0xFF];
pub const BG_DARK: Color = [0x14, 0x16, 0x1C, 0xFF];
pub const BORDER_DARK: Color = [0x22, 0x25, 0x2F, 0xFF];
pub const BORDER_MEDIUM: Color = [0x31, 0x35, 0x43, 0xFF];
pub const BORDER_LIGHT: Color = [0x4A, 0x4F, 0x5E, 0xFF];
pub const BORDER_FOCUS: Color = [0x94, 0x9C, 0xFF, 0xFF];
pub const ACCENT: Color = [0x7A, 0x86, 0xFF, 0xFF];
pub const ACCENT_HOVER: Color = [0x94, 0x9C, 0xFF, 0xFF];
pub const ACCENT_PRESSED: Color = [0x5C, 0x68, 0xE0, 0xFF];
pub const ACCENT_DIM: Color = [0x7A, 0x86, 0xFF, 0x29];
pub const ACCENT_BLUE: Color = [0x7A, 0x86, 0xFF, 0xFF];
pub const TEXT_PRIMARY: Color = [0xD8, 0xDC, 0xE8, 0xFF];
pub const TEXT_SECONDARY: Color = [0x9A, 0xA3, 0xB5, 0xFF];
pub const TEXT_MUTED: Color = [0x8C, 0x95, 0xAA, 0xFF];
pub const TEXT_DISABLED: Color = [0x5C, 0x64, 0x78, 0xFF];
pub const TEXT_LINK: Color = [0x94, 0x9C, 0xFF, 0xFF];
pub const STATUS_INFO: Color = [0x59, 0xB8, 0xD6, 0xFF];
pub const STATUS_OK: Color = [0x5D, 0xCE, 0x9A, 0xFF];
pub const STATUS_WARN: Color = [0xE6, 0xB0, 0x4A, 0xFF];
pub const STATUS_ERROR: Color = [0xE6, 0x70, 0x70, 0xFF];
pub const FOLDER_SAND: Color = [0xC4, 0xA5, 0x74, 0xFF];

/// Palette `moon`: the step above `text.primary`, for a selected or hovered
/// row's label.
pub const MOON: Color = [0xF2, 0xF4, 0xFF, 0xFF];

pub const TOOLTIP_DELAY_MS: u64 = 400;

/// The compatibility constants are exactly the Nocturne tokens they alias.
pub proof fn lemma_aliases_match_the_nocturne_snapshot()
    ensures
        BG_VOID == palette(ThemeId::Nocturne).surface.window.0,
        BG_CONTENT == palette(ThemeId::Nocturne).surface.canvas.0,
        BG_PANEL == palette(ThemeId::Nocturne).surface.panel.0,
        BG_HEADER == palette(ThemeId::Nocturne).surface.header.0,
        BG_RAISED == palette(ThemeId::Nocturne).surface.raised.0,
        BG_INPUT == palette(ThemeId::Nocturne).surface.input.0,
        BG_HOVER == palette(ThemeId::Nocturne).surface.hover.0,
        BG_DARK == palette(ThemeId::Nocturne).surface.window.0,
        BORDER_DARK == palette(ThemeId::Nocturne).border.subtle.0,
        BORDER_MEDIUM == palette(ThemeId::Nocturne).border.default.0,
        BORDER_LIGHT == palette(ThemeId::Nocturne).border.strong.0,
        BORDER_FOCUS == palette(ThemeId::Nocturne).border.focus.0,
        ACCENT == palette(ThemeId::Nocturne).accent.default.0,
        ACCENT_HOVER == palette(ThemeId::Nocturne).accent.hover.0,
        ACCENT_PRESSED == palette(ThemeId::Nocturne).accent.pressed.0,
        ACCENT_DIM == palette(ThemeId::Nocturne).accent.selected_bg.0,
        ACCENT_BLUE == palette(ThemeId::Nocturne).accent.default.0,
        TEXT_PRIMARY == palette(ThemeId::Nocturne).text.primary.0,
        TEXT_SECONDARY == palette(ThemeId::Nocturne).text.secondary.0,
        TEXT_MUTED == palette(ThemeId::Nocturne).text.muted.0,
        TEXT_DISABLED == palette(ThemeId::Nocturne).text.disabled.0,
        TEXT_LINK == palette(ThemeId::Nocturne).text.link.0,
        STATUS_INFO == palette(ThemeId::Nocturne).status.info.0,
        STATUS_OK == palette(ThemeId::Nocturne).status.success.0,
        STATUS_WARN == palette(ThemeId::Nocturne).status.warning.0,
        STATUS_ERROR == palette(ThemeId::Nocturne).status.error.0,
        FOLDER_SAND == palette(ThemeId::Nocturne).folder.0,
        MOON == palette(ThemeId::Nocturne).text.emphasis.0,
{
}

/// Replace a colour's alpha channel. Alpha stays straight.
pub fn with_alpha(color: Color, alpha: u8) -> (c: Color)
    ensures
        c == [color[0], color[1], color[2], alpha],
{
    [color[0], color[1], color[2], alpha]
}

/// One channel of `top` over `bottom` with straight alpha `a`, rounded to
/// the nearest byte: `(top * a + bottom * (255 - a)) / 255`.
pub open spec fn blend_channel(top: u8, bottom: u8, a: u8) -> u8 {
    ((2 * (top * a + bottom * (255 - a)) + 255) / 510) as u8
}

fn blend_byte(top: u8, bottom: u8, a: u8) -> (v: u8)
    ensures
        v == blend_channel(top, bottom, a),
{
    let t = top as u32;
    let b = bottom as u32;
    let x = a as u32;
    assert(t * x <= 255 * 255 && b * (255 - x) <= 255 * 255) by (nonlinear_arith)
        requires
            t <= 255,
            b <= 255,
            x <= 255,
    ;
    assert(t * x + b * (255 - x) <= 255 * 255) by (nonlinear_arith)
        requires
            t <= 255,
            b <= 255,
            x <= 255,
    ;
    let n = t * x + b * (255 - x);
    ((2 * n + 255) / 510) as u8
}

/// Blend `top` over `bottom` in authored sRGB space using `top`'s straight
/// alpha, keeping `bottom`'s alpha. Flattens a translucent wash into one
/// opaque fill for a widget drawn in the same pass as the one below it.
pub fn flatten(bottom: Color, top: Color) -> (c: Color)
    ensures
        c == [
            blend_channel(top[0], bottom[0], top[3]),
            blend_channel(top[1], bottom[1], top[3]),
            blend_channel(top[2], bottom[2], top[3]),
            bottom[3],
        ],
{
    [
        blend_byte(top[0], bottom[0], top[3]),
        blend_byte(top[1], bottom[1], top[3]),
        blend_byte(top[2], bottom[2], top[3]),
        bottom[3],
    ]
}

/// A blend stays between its inputs, and the two ends of the alpha range
/// give the two inputs back.
pub proof fn lemma_blend_stays_between(top: u8, bottom: u8, a: u8)
    ensures
        blend_channel(top, bottom, a) as int >= if top <= bottom { top as int } else { bottom as int },
        blend_channel(top, bottom, a) as int <= if top <= bottom { bottom as int } else { top as int },
        a == 255 ==> blend_channel(top, bottom, a) == top,
        a == 0 ==> blend_channel(top, bottom, a) == bottom,
{
    let t = top as int;
    let b = bottom as int;
    let x = a as int;
    let n = t * x + b * (255 - x);
    let lo = if t <= b { t } else { b };
    let hi = if t <= b { b } else { t };
    assert(lo * 255 <= n <= hi * 255) by (nonlinear_arith)
        requires
            n == t * x + b * (255 - x),
            0 <= x <= 255,
            0 <= t <= 255,
            0 <= b <= 255,
            lo == if t <= b { t } else { b },
            hi == if t <= b { b } else { t },
    ;
    assert(lo <= (2 * n + 255) / 510 <= hi) by (nonlinear_arith)
        requires
            lo * 255 <= n <= hi * 255,
            0 <= lo,
    ;
    if x == 255 {
        assert(n == t * 255) by (nonlinear_arith)
            requires
                n == t * x + b * (255 - x),
                x == 255,
        ;
    }
    if x == 0 {
        assert(n == b * 255) by (nonlinear_arith)
            requires
                n == t * x + b * (255 - x),
                x == 0,
        ;
    }
}

/// A theme swap changes paint: the two snapshots differ in their panels,
/// and each runs two temperatures, a warm ember beside a cool accent.
pub proof fn lemma_themes_differ_in_paint_and_keep_their_temperatures(id: ThemeId)
    ensures
        palette(ThemeId::Nocturne).surface.panel != palette(ThemeId::Dawn).surface.panel,
        spec_ember(id).0[0] > spec_ember(id).0[2],
        palette(id).accent.default.0[2] > palette(id).accent.default.0[0],
        palette(id).accent.selected_bg.0[3] < 0xFF,
{
}

} // verus!
