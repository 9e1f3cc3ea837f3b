//! Component interaction states and status colours.
//!
//! Recipes turn a component and its interaction state into paint, so a
//! widget asks for `button(theme, state)` rather than choosing between
//! surface tokens itself. Four cues carry every surface: a hover wash
//! (never a border change, which would reflow the row), a focus ring, a
//! selection rail paired with a fill (so selection never relies on colour
//! alone), and a gutter dot for modified.
//!
//! A recipe decides the colours and which stroke, corner, wash, lift, halo
//! and inner shadow a surface takes; their sizes are floating-point theme
//! tokens that the draw layer looks up.

use vstd::prelude::*;
use crate::theme::{Color, SemanticColors, ThemeId, blend_channel, flatten, palette, semantic_colors, with_alpha, TRANSPARENT};

verus! {

/// Interaction state of one component instance.
///
/// When several apply, `Disabled` wins, then `Pressed`, `Selected`,
/// `Hover`, `Rest`. Focus composes with all of them, so it is carried
/// separately.
#[derive(Clone, Copy, Debug, PartialEq, Eq, Structural)]
pub enum Interaction {
    Rest,
    Hover,
    Pressed,
    /// Selected row, active tab, armed mode button.
    Selected,
    Disabled,
}

/// Everything a recipe needs to resolve paint for one instance.
#[derive(Clone, Copy, Debug, PartialEq, Eq, Structural)]
pub struct VisualState {
    pub interaction: Interaction,
    /// Keyboard focus. Draws a ring; does not change the fill.
    pub focused: bool,
    /// Value differs from the component default: draws the gutter dot.
    pub modified: bool,
    /// Validation failed. Recolours the outline, never the fill.
    pub invalid: bool,
}

impl Default for Interaction {
    fn default() -> (i: Self)
        ensures
            i == Interaction::Rest,
    {
        Interaction::Rest
    }
}

impl Default for VisualState {
    fn default() -> (s: Self)
        ensures
            s == (VisualState { interaction: Interaction::Rest, focused: false, modified: false, invalid: false }),
    {
        VisualState { interaction: Interaction::Rest, focused: false, modified: false, invalid: false }
    }
}

impl VisualState {
    /// At rest: no interaction, no focus, unmodified, valid.
    pub fn rest() -> (s: Self)
        ensures
            s == (VisualState { interaction: Interaction::Rest, focused: false, modified: false, invalid: false }),
    {
        VisualState::default()
    }

    /// In `interaction`, otherwise at rest.
    pub fn with(interaction: Interaction) -> (s: Self)
        ensures
            s == (VisualState { interaction, focused: false, modified: false, invalid: false }),
    {
        VisualState { interaction, focused: false, modified: false, invalid: false }
    }

    /// With keyboard focus on or off.
    pub fn focused(self, on: bool) -> (s: Self)
        ensures
            s == (VisualState { focused: on, ..self }),
    {
        VisualState { focused: on, ..self }
    }

    /// Marked modified or not.
    pub fn modified(self, on: bool) -> (s: Self)
        ensures
            s == (VisualState { modified: on, ..self }),
    {
        VisualState { modified: on, ..self }
    }

    /// Marked invalid or not.
    pub fn invalid(self, on: bool) -> (s: Self)
        ensures
            s == (VisualState { invalid: on, ..self }),
    {
        VisualState { invalid: on, ..self }
    }

    /// Whether the instance is disabled.
    pub fn is_disabled(&self) -> (b: bool)
        ensures
            b == (self.interaction is Disabled),
    {
        self.interaction == Interaction::Disabled
    }
}

/// A log or notification severity.
#[derive(Clone, Copy, Debug, PartialEq, Eq, Structural)]
pub enum StatusKind {
    Info,
    Success,
    Warning,
    Error,
    Busy,
}

/// The status colour of a severity in a theme, as a plain value.
pub open spec fn status_color(theme: ThemeId, kind: StatusKind) -> Color {
    let s = palette(theme).status;
    match kind {
        StatusKind::Info => s.info.0,
        StatusKind::Success => s.success.0,
        StatusKind::Warning => s.warning.0,
        StatusKind::Error => s.error.0,
        StatusKind::Busy => s.busy.0,
    }
}

/// The status colour for a severity in the given theme, in one place so a
/// status never becomes a raw hex at a call site.
pub fn status(theme: ThemeId, kind: StatusKind) -> (c: Color)
    ensures
        c == status_color(theme, kind),
{
    let s = semantic_colors(theme).status;
    match kind {
        StatusKind::Info => s.info.bytes(),
        StatusKind::Success => s.success.bytes(),
        StatusKind::Warning => s.warning.bytes(),
        StatusKind::Error => s.error.bytes(),
        StatusKind::Busy => s.busy.bytes(),
    }
}

/// Every severity has its own colour in both themes, so a warning is never
/// mistaken for an error; busy is the only one that borrows the accent.
pub proof fn lemma_status_colours_are_distinct(theme: ThemeId, a: StatusKind, b: StatusKind)
    requires
        a != b,
    ensures
        status_color(theme, a) != status_color(theme, b),
        status_color(theme, StatusKind::Busy) == palette(theme).accent.default.0,
{
}

/// Which stroke an outline takes.
#[derive(Clone, Copy, Debug, PartialEq, Eq, Structural)]
pub enum Stroke {
    /// No outline.
    Bare,
    /// The hairline outline.
    Hairline,
    /// The focus ring.
    Focus,
    /// The selection rail's width, for drop targets.
    Rail,
}

/// Which corner radius a surface takes.
#[derive(Clone, Copy, Debug, PartialEq, Eq, Structural)]
pub enum Corner {
    Chrome,
    Input,
    Tile,
    Popup,
    /// Square corners.
    Square,
}

/// Which two-stop wash lies over a fill.
#[derive(Clone, Copy, Debug, PartialEq, Eq, Structural)]
pub enum Wash {
    Plain,
    /// Toolbars and the application bar.
    Chrome,
    /// The one filled call to action on a surface.
    AccentPrimary,
}

/// Whether a surface is lifted off its panel.
#[derive(Clone, Copy, Debug, PartialEq, Eq, Structural)]
pub enum Lift {
    Flat,
    Raised,
}

/// Whether a surface glows.
#[derive(Clone, Copy, Debug, PartialEq, Eq, Structural)]
pub enum Halo {
    Unlit,
    /// The keyboard focus bloom.
    Focus,
}

/// Whether a surface sinks below its panel.
#[derive(Clone, Copy, Debug, PartialEq, Eq, Structural)]
pub enum Sink {
    Level,
    /// The inner shadow of an input.
    Input,
}

/// Width of a stroke in whole pixels. The geometry ladder is shared by
/// both themes, so a theme switch never moves an outline.
pub open spec fn stroke_px(stroke: Stroke) -> u32 {
    match stroke {
        Stroke::Bare => 0,
        Stroke::Hairline => 1,
        Stroke::Focus => 1,
        Stroke::Rail => 2,
    }
}

/// Radius of a corner in whole pixels, shared by both themes.
pub open spec fn corner_px(corner: Corner) -> u32 {
    match corner {
        Corner::Chrome => 2,
        Corner::Input => 2,
        Corner::Tile => 3,
        Corner::Popup => 4,
        Corner::Square => 0,
    }
}

/// The width of a stroke in pixels.
pub fn stroke_width(stroke: Stroke) -> (w: u32)
    ensures
        w == stroke_px(stroke),
{
    match stroke {
        Stroke::Bare => 0,
        Stroke::Hairline => 1,
        Stroke::Focus => 1,
        Stroke::Rail => 2,
    }
}

/// The radius of a corner in pixels.
pub fn corner_radius(corner: Corner) -> (r: u32)
    ensures
        r == corner_px(corner),
{
    match corner {
        Corner::Chrome => 2,
        Corner::Input => 2,
        Corner::Tile => 3,
        Corner::Popup => 4,
        Corner::Square => 0,
    }
}

/// Resolved paint for one component instance: its colours, and which of
/// the theme's strokes, corners, washes, lifts, halos and inner shadows it
/// takes.
#[derive(Clone, Copy, Debug)]
pub struct PaintPlan {
    pub background: Color,
    pub foreground: Color,
    /// Outline colour; the background where there is no outline.
    pub border: Color,
    pub stroke: Stroke,
    /// The selection or error strip; `None` otherwise.
    pub rail: Option<Color>,
    pub corner: Corner,
    pub wash: Wash,
    pub lift: Lift,
    pub halo: Halo,
    pub sink: Sink,
}

/// A plain fill: no outline, chrome corners, nothing else.
pub open spec fn flat(background: Color, foreground: Color) -> PaintPlan {
    PaintPlan {
        background,
        foreground,
        border: background,
        stroke: Stroke::Bare,
        rail: None,
        corner: Corner::Chrome,
        wash: Wash::Plain,
        lift: Lift::Flat,
        halo: Halo::Unlit,
        sink: Sink::Level,
    }
}

/// A fill with a hairline outline.
pub open spec fn outlined(background: Color, foreground: Color, border: Color) -> PaintPlan {
    PaintPlan { border, stroke: Stroke::Hairline, ..flat(background, foreground) }
}

/// `top` blended over `bottom` with `top`'s alpha, keeping `bottom`'s.
pub open spec fn flattened(bottom: Color, top: Color) -> Color {
    [
        blend_channel(top[0], bottom[0], top[3]),
        blend_channel(top[1], bottom[1], top[3]),
        blend_channel(top[2], bottom[2], top[3]),
        bottom[3],
    ]
}

/// The overrides every recipe honours: an invalid value recolours the
/// outline; focus draws the ring and its bloom over any interaction; a
/// disabled control takes the disabled foreground and is never lit or
/// lifted.
pub open spec fn finished(p: PaintPlan, state: VisualState, s: SemanticColors) -> PaintPlan {
    let p1 = if state.invalid {
        PaintPlan { border: s.status.error.0, stroke: Stroke::Hairline, ..p }
    } else {
        p
    };
    let p2 = if state.focused {
        PaintPlan { border: s.border.focus.0, stroke: Stroke::Focus, halo: Halo::Focus, ..p1 }
    } else {
        p1
    };
    if state.interaction is Disabled {
        PaintPlan { foreground: s.text.disabled.0, halo: Halo::Unlit, lift: Lift::Flat, ..p2 }
    } else {
        p2
    }
}

/// `Button` and `MenuItem`: a raised chrome surface that washes on hover
/// and darkens, rather than moves, on press.
pub open spec fn button_plan(theme: ThemeId, state: VisualState) -> PaintPlan {
    let s = palette(theme);
    let base = match state.interaction {
        Interaction::Rest => PaintPlan {
            wash: Wash::Chrome,
            lift: Lift::Raised,
            ..flat(s.surface.raised.0, s.text.primary.0)
        },
        Interaction::Hover => PaintPlan { lift: Lift::Raised, ..flat(s.surface.hover.0, s.text.primary.0) },
        Interaction::Pressed => flat(s.surface.input.0, s.text.primary.0),
        Interaction::Selected => PaintPlan {
            rail: Some(s.accent.selected_rail.0),
            ..flat(flattened(s.surface.raised.0, s.accent.selected_bg.0), s.text.primary.0)
        },
        Interaction::Disabled => flat(s.surface.panel.0, s.text.disabled.0),
    };
    finished(base, state, s)
}

/// The one primary action on a surface.
pub open spec fn primary_button_plan(theme: ThemeId, state: VisualState) -> PaintPlan {
    let s = palette(theme);
    let a = s.accent;
    let fill = match state.interaction {
        Interaction::Hover => a.hover.0,
        Interaction::Pressed => a.pressed.0,
        Interaction::Disabled => s.surface.panel.0,
        _ => a.default.0,
    };
    let fg = if state.interaction is Disabled {
        s.text.disabled.0
    } else {
        s.text.inverse.0
    };
    let paint = if state.interaction is Disabled {
        flat(fill, fg)
    } else {
        PaintPlan { wash: Wash::AccentPrimary, lift: Lift::Raised, ..flat(fill, fg) }
    };
    finished(paint, state, s)
}

/// An icon-only toolbar control: transparent at rest, so the command
/// bands read as one surface.
pub open spec fn icon_button_plan(theme: ThemeId, state: VisualState) -> PaintPlan {
    let s = palette(theme);
    let base = match state.interaction {
        Interaction::Rest => flat(TRANSPARENT, s.text.secondary.0),
        Interaction::Hover => flat(s.surface.hover.0, s.text.primary.0),
        Interaction::Pressed => flat(s.surface.input.0, s.text.primary.0),
        Interaction::Selected => PaintPlan {
            rail: Some(s.accent.selected_rail.0),
            ..flat(s.accent.selected_bg.0, s.accent.hover.0)
        },
        Interaction::Disabled => flat(TRANSPARENT, s.text.disabled.0),
    };
    finished(base, state, s)
}

/// A recessed text, numeric or search field: the one surface that sinks.
pub open spec fn input_plan(theme: ThemeId, state: VisualState) -> PaintPlan {
    let s = palette(theme);
    let base = match state.interaction {
        Interaction::Disabled => outlined(s.surface.panel.0, s.text.disabled.0, s.surface.raised.0),
        Interaction::Hover => outlined(s.surface.input.0, s.text.primary.0, s.border.strong.0),
        _ => outlined(s.surface.input.0, s.text.primary.0, s.border.default.0),
    };
    finished(PaintPlan { corner: Corner::Input, sink: Sink::Input, ..base }, state, s)
}

/// An outliner or content-tree row. Selection is fill and rail together;
/// an invalid row takes the error hue for its wash, text and rail.
pub open spec fn tree_row_plan(theme: ThemeId, state: VisualState) -> PaintPlan {
    let s = palette(theme);
    let base = match state.interaction {
        Interaction::Rest => flat(TRANSPARENT, s.text.primary.0),
        Interaction::Hover => flat(s.surface.hover.0, s.text.emphasis.0),
        Interaction::Pressed | Interaction::Selected => PaintPlan {
            rail: Some(s.accent.selected_rail.0),
            ..flat(s.accent.selected_bg.0, s.text.emphasis.0)
        },
        Interaction::Disabled => flat(TRANSPARENT, s.text.disabled.0),
    };
    let paint = finished(PaintPlan { corner: Corner::Square, ..base }, state, s);
    if state.invalid {
        PaintPlan {
            background: [s.status.error.0[0], s.status.error.0[1], s.status.error.0[2], 0x1A],
            foreground: s.status.error.0,
            rail: Some(s.status.error.0),
            stroke: Stroke::Bare,
            ..paint
        }
    } else {
        paint
    }
}

/// A content browser tile.
pub open spec fn asset_tile_plan(theme: ThemeId, state: VisualState) -> PaintPlan {
    let s = palette(theme);
    let base = match state.interaction {
        Interaction::Hover => outlined(s.surface.canvas.0, s.text.primary.0, s.border.strong.0),
        Interaction::Selected | Interaction::Pressed => outlined(
            s.surface.header.0,
            s.text.emphasis.0,
            s.accent.default.0,
        ),
        Interaction::Disabled => outlined(s.surface.canvas.0, s.text.disabled.0, s.border.subtle.0),
        Interaction::Rest => outlined(s.surface.canvas.0, s.text.primary.0, s.border.default.0),
    };
    finished(PaintPlan { corner: Corner::Tile, ..base }, state, s)
}

/// The popup surface menus, combo lists, tooltips and palettes share.
pub open spec fn popup_plan(theme: ThemeId) -> PaintPlan {
    let s = palette(theme);
    PaintPlan { corner: Corner::Popup, ..outlined(s.surface.popup.0, s.text.primary.0, s.border.default.0) }
}

/// What a drop would do.
#[derive(Clone, Copy, Debug, PartialEq, Eq, Structural)]
pub enum DropEffect {
    Move,
    Copy,
    Link,
    Forbidden,
}

/// Drop-target feedback for a drag in flight: the effect's hue outlines a
/// fill of that hue at `fill_alpha`.
pub open spec fn drop_target_plan(theme: ThemeId, effect: DropEffect, fill_alpha: u8) -> PaintPlan {
    let s = palette(theme);
    let accent = match effect {
        DropEffect::Move => s.accent.default.0,
        DropEffect::Copy => s.status.success.0,
        DropEffect::Link => s.status.info.0,
        DropEffect::Forbidden => s.status.error.0,
    };
    PaintPlan {
        border: accent,
        stroke: Stroke::Rail,
        corner: Corner::Tile,
        ..flat([accent[0], accent[1], accent[2], fill_alpha], accent)
    }
}

fn flat_paint(background: Color, foreground: Color) -> (p: PaintPlan)
    ensures
        p == flat(background, foreground),
{
    PaintPlan {
        background,
        foreground,
        border: background,
        stroke: Stroke::Bare,
        rail: None,
        corner: Corner::Chrome,
        wash: Wash::Plain,
        lift: Lift::Flat,
        halo: Halo::Unlit,
        sink: Sink::Level,
    }
}

fn outlined_paint(background: Color, foreground: Color, border: Color) -> (p: PaintPlan)
    ensures
        p == outlined(background, foreground, border),
{
    PaintPlan { border, stroke: Stroke::Hairline, ..flat_paint(background, foreground) }
}

fn finish(p: PaintPlan, state: VisualState, s: &SemanticColors) -> (r: PaintPlan)
    ensures
        r == finished(p, state, *s),
{
    let mut p = p;
    if state.invalid {
        p.border = s.status.error.bytes();
        p.stroke = Stroke::Hairline;
    }
    if state.focused {
        p.border = s.border.focus.bytes();
        p.stroke = Stroke::Focus;
        p.halo = Halo::Focus;
    }
    if state.is_disabled() {
        p.foreground = s.text.disabled.bytes();
        p.halo = Halo::Unlit;
        p.lift = Lift::Flat;
    }
    p
}

/// `Button` and `MenuItem` paint.
pub fn button(theme: ThemeId, state: VisualState) -> (p: PaintPlan)
    ensures
        state.interaction is Hover ==> p.background == palette(theme).surface.hover.0,
        p == button_plan(theme, state),
{
    let s = semantic_colors(theme);
    let base = match state.interaction {
        Interaction::Rest => PaintPlan {
            wash: Wash::Chrome,
            lift: Lift::Raised,
            ..flat_paint(s.surface.raised.bytes(), s.text.primary.bytes())
        },
        Interaction::Hover => PaintPlan {
            lift: Lift::Raised,
            ..flat_paint(s.surface.hover.bytes(), s.text.primary.bytes())
        },
        Interaction::Pressed => flat_paint(s.surface.input.bytes(), s.text.primary.bytes()),
        Interaction::Selected => PaintPlan {
            rail: Some(s.accent.selected_rail.bytes()),
            ..flat_paint(flatten(s.surface.raised.bytes(), s.accent.selected_bg.bytes()), s.text.primary.bytes())
        },
        Interaction::Disabled => flat_paint(s.surface.panel.bytes(), s.text.disabled.bytes()),
    };
    finish(base, state, &s)
}

/// The primary action's paint.
pub fn primary_button(theme: ThemeId, state: VisualState) -> (p: PaintPlan)
    ensures
        state.interaction is Hover ==> p.background == palette(theme).accent.hover.0,
        p == primary_button_plan(theme, state),
{
    let s = semantic_colors(theme);
    let a = s.accent;
    let fill = match state.interaction {
        Interaction::Hover => a.hover.bytes(),
        Interaction::Pressed => a.pressed.bytes(),
        Interaction::Disabled => s.surface.panel.bytes(),
        _ => a.default.bytes(),
    };
    let fg = if state.is_disabled() {
        s.text.disabled.bytes()
    } else {
        s.text.inverse.bytes()
    };
    let mut paint = flat_paint(fill, fg);
    if !state.is_disabled() {
        paint.wash = Wash::AccentPrimary;
        paint.lift = Lift::Raised;
    }
    finish(paint, state, &s)
}

/// An icon-only toolbar control's paint.
pub fn icon_button(theme: ThemeId, state: VisualState) -> (p: PaintPlan)
    ensures
        state.interaction is Hover ==> p.background == palette(theme).surface.hover.0,
        p == icon_button_plan(theme, state),
{
    let s = semantic_colors(theme);
    let base = match state.interaction {
        Interaction::Rest => flat_paint(TRANSPARENT, s.text.secondary.bytes()),
        Interaction::Hover => flat_paint(s.surface.hover.bytes(), s.text.primary.bytes()),
        Interaction::Pressed => flat_paint(s.surface.input.bytes(), s.text.primary.bytes()),
        Interaction::Selected => PaintPlan {
            rail: Some(s.accent.selected_rail.bytes()),
            ..flat_paint(s.accent.selected_bg.bytes(), s.accent.hover.bytes())
        },
        Interaction::Disabled => flat_paint(TRANSPARENT, s.text.disabled.bytes()),
    };
    finish(base, state, &s)
}

/// A text, numeric or search field's paint.
pub fn input(theme: ThemeId, state: VisualState) -> (p: PaintPlan)
    ensures
        p == input_plan(theme, state),
{
    let s = semantic_colors(theme);
    let base = match state.interaction {
        Interaction::Disabled => outlined_paint(s.surface.panel.bytes(), s.text.disabled.bytes(), s.surface.raised.bytes()),
        Interaction::Hover => outlined_paint(s.surface.input.bytes(), s.text.primary.bytes(), s.border.strong.bytes()),
        _ => outlined_paint(s.surface.input.bytes(), s.text.primary.bytes(), s.border.default.bytes()),
    };
    finish(PaintPlan { corner: Corner::Input, sink: Sink::Input, ..base }, state, &s)
}

/// An outliner or content-tree row's paint.
pub fn tree_row(theme: ThemeId, state: VisualState) -> (p: PaintPlan)
    ensures
        state.interaction is Hover && !state.invalid ==> p.background == palette(theme).surface.hover.0,
        p == tree_row_plan(theme, state),
{
    let s = semantic_colors(theme);
    let base = match state.interaction {
        Interaction::Rest => flat_paint(TRANSPARENT, s.text.primary.bytes()),
        Interaction::Hover => flat_paint(s.surface.hover.bytes(), s.text.emphasis.bytes()),
        Interaction::Pressed | Interaction::Selected => PaintPlan {
            rail: Some(s.accent.selected_rail.bytes()),
            ..flat_paint(s.accent.selected_bg.bytes(), s.text.emphasis.bytes())
        },
        Interaction::Disabled => flat_paint(TRANSPARENT, s.text.disabled.bytes()),
    };
    let mut paint = finish(PaintPlan { corner: Corner::Square, ..base }, state, &s);
    if state.invalid {
        paint.background = with_alpha(s.status.error.bytes(), 0x1A);
        paint.foreground = s.status.error.bytes();
        paint.rail = Some(s.status.error.bytes());
        paint.stroke = Stroke::Bare;
    }
    paint
}

/// A content browser tile's paint.
pub fn asset_tile(theme: ThemeId, state: VisualState) -> (p: PaintPlan)
    ensures
        p == asset_tile_plan(theme, state),
{
    let s = semantic_colors(theme);
    let base = match state.interaction {
        Interaction::Hover => outlined_paint(s.surface.canvas.bytes(), s.text.primary.bytes(), s.border.strong.bytes()),
        Interaction::Selected | Interaction::Pressed => outlined_paint(
            s.surface.header.bytes(),
            s.text.emphasis.bytes(),
            s.accent.default.bytes(),
        ),
        Interaction::Disabled => outlined_paint(s.surface.canvas.bytes(), s.text.disabled.bytes(), s.border.subtle.bytes()),
        Interaction::Rest => outlined_paint(s.surface.canvas.bytes(), s.text.primary.bytes(), s.border.default.bytes()),
    };
    finish(PaintPlan { corner: Corner::Tile, ..base }, state, &s)
}

/// The shared popup surface's paint.
pub fn popup(theme: ThemeId) -> (p: PaintPlan)
    ensures
        p == popup_plan(theme),
{
    let s = semantic_colors(theme);
    PaintPlan {
        corner: Corner::Popup,
        ..outlined_paint(s.surface.popup.bytes(), s.text.primary.bytes(), s.border.default.bytes())
    }
}

/// Drop-target feedback's paint; `fill_alpha` is the theme's drop opacity
/// as a byte.
pub fn drop_target(theme: ThemeId, effect: DropEffect, fill_alpha: u8) -> (p: PaintPlan)
    ensures
        p == drop_target_plan(theme, effect, fill_alpha),
{
    let s = semantic_colors(theme);
    let accent = match effect {
        DropEffect::Move => s.accent.default.bytes(),
        DropEffect::Copy => s.status.success.bytes(),
        DropEffect::Link => s.status.info.bytes(),
        DropEffect::Forbidden => s.status.error.bytes(),
    };
    PaintPlan {
        border: accent,
        stroke: Stroke::Rail,
        corner: Corner::Tile,
        ..flat_paint(with_alpha(accent, fill_alpha), accent)
    }
}


/// The recipes whose surfaces take a hover wash and a focus ring.
#[derive(Clone, Copy, Debug, PartialEq, Eq, Structural)]
pub enum Recipe {
    Button,
    PrimaryButton,
    IconButton,
    Input,
    TreeRow,
    AssetTile,
}

/// The paint a recipe resolves for a state.
pub open spec fn recipe_plan(recipe: Recipe, theme: ThemeId, state: VisualState) -> PaintPlan {
    match recipe {
        Recipe::Button => button_plan(theme, state),
        Recipe::PrimaryButton => primary_button_plan(theme, state),
        Recipe::IconButton => icon_button_plan(theme, state),
        Recipe::Input => input_plan(theme, state),
        Recipe::TreeRow => tree_row_plan(theme, state),
        Recipe::AssetTile => asset_tile_plan(theme, state),
    }
}

/// Selection is never carried by colour alone: a selected row, button or
/// icon button always draws the rail beside its fill.
pub proof fn lemma_selection_draws_the_rail(theme: ThemeId, state: VisualState)
    requires
        state.interaction is Selected,
    ensures
        tree_row_plan(theme, state).rail is Some,
        button_plan(theme, state).rail is Some,
        icon_button_plan(theme, state).rail is Some,
{
}

/// Hovering changes the wash, never the outline: for every recipe the
/// stroke under the pointer is the stroke at rest, so nothing reflows.
pub proof fn lemma_hover_keeps_the_outline(recipe: Recipe, theme: ThemeId, state: VisualState)
    ensures
        recipe_plan(recipe, theme, VisualState { interaction: Interaction::Hover, ..state }).stroke
            == recipe_plan(recipe, theme, VisualState { interaction: Interaction::Rest, ..state }).stroke,
        !state.invalid ==> tree_row_plan(theme, VisualState { interaction: Interaction::Hover, ..state }).background
            != tree_row_plan(theme, VisualState { interaction: Interaction::Rest, ..state }).background,
{
}

/// Focus draws the ring and its bloom over any interaction; an invalid
/// tree row is the one surface whose error strip replaces the ring.
pub proof fn lemma_focus_draws_the_ring(recipe: Recipe, theme: ThemeId, state: VisualState)
    requires
        state.focused,
        recipe is TreeRow ==> !state.invalid,
    ensures
        recipe_plan(recipe, theme, state).border == palette(theme).border.focus.0,
        recipe_plan(recipe, theme, state).stroke == Stroke::Focus,
        !(state.interaction is Disabled) ==> recipe_plan(recipe, theme, state).halo == Halo::Focus,
{
}

/// An invalid value recolours the outline and keeps the fill of the same
/// state when valid; a tree row draws the error strip instead.
pub proof fn lemma_invalid_recolours_the_outline(recipe: Recipe, theme: ThemeId, state: VisualState)
    requires
        state.invalid,
    ensures
        !(recipe is TreeRow) ==> recipe_plan(recipe, theme, state).background
            == recipe_plan(recipe, theme, VisualState { invalid: false, ..state }).background,
        !(recipe is TreeRow) && !state.focused ==> recipe_plan(recipe, theme, state).border
            == palette(theme).status.error.0,
        tree_row_plan(theme, state).rail == Some(palette(theme).status.error.0),
        tree_row_plan(theme, state).foreground == palette(theme).status.error.0,
{
}

/// Disabled beats every other interaction: a disabled control takes the
/// disabled foreground and is neither lit nor lifted, whatever else holds
/// (but for an invalid tree row, whose text takes the error hue).
pub proof fn lemma_disabled_wins(recipe: Recipe, theme: ThemeId, state: VisualState)
    requires
        state.interaction is Disabled,
        recipe is TreeRow ==> !state.invalid,
    ensures
        recipe_plan(recipe, theme, state).foreground == palette(theme).text.disabled.0,
        recipe_plan(recipe, theme, state).halo == Halo::Unlit,
        recipe_plan(recipe, theme, state).lift == Lift::Flat,
{
}

/// A drop target's outline takes the effect's hue at the rail's width, so
/// a forbidden drop differs from an allowed one by hue and by reason.
pub proof fn lemma_drop_target_hues(theme: ThemeId, effect: DropEffect, fill_alpha: u8)
    ensures
        drop_target_plan(theme, effect, fill_alpha).stroke == Stroke::Rail,
        effect is Forbidden <==> drop_target_plan(theme, effect, fill_alpha).border
            == palette(theme).status.error.0,
        drop_target_plan(theme, effect, fill_alpha).background[3] == fill_alpha,
{
}

/// Hover always shows. A button, menu item, primary button, icon button
/// or tree row changes its fill under the pointer (a button takes the
/// theme's hover surface); an input or asset tile, whose fill stays, takes
/// the strong outline instead, unless focus or an invalid value owns the
/// outline.
pub proof fn lemma_hover_is_visible(recipe: Recipe, theme: ThemeId, state: VisualState)
    requires
        !state.invalid,
    ensures
        ({
            let hover = recipe_plan(recipe, theme, VisualState { interaction: Interaction::Hover, ..state });
            let rest = recipe_plan(recipe, theme, VisualState { interaction: Interaction::Rest, ..state });
            &&& (recipe is Button || recipe is PrimaryButton || recipe is IconButton || recipe is TreeRow) ==> hover.background
                != rest.background
            &&& (recipe is Button || recipe is IconButton || recipe is TreeRow) ==> hover.background
                == palette(theme).surface.hover.0
            &&& recipe is PrimaryButton ==> hover.background == palette(theme).accent.hover.0
            &&& (recipe is Input || recipe is AssetTile) && !state.focused ==> hover.border != rest.border
                && hover.border == palette(theme).border.strong.0
        }),
{
    let p = palette(theme);
    assert(p.surface.hover.0[0] != p.surface.raised.0[0]);
    assert(p.surface.hover.0[3] != TRANSPARENT[3]);
    assert(p.accent.hover.0[0] != p.accent.default.0[0] || p.accent.hover.0[1] != p.accent.default.0[1]
        || p.accent.hover.0[2] != p.accent.default.0[2]);
    assert(p.border.strong.0[0] != p.border.default.0[0] || p.border.strong.0[3] != p.border.default.0[3]);
}

} // verus!
