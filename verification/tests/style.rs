use somnium_ui::style::{
    asset_tile, button, corner_radius, drop_target, icon_button, input, popup, primary_button, stroke_width,
    tree_row, Corner, DropEffect, Halo, Interaction, Lift, Sink, Stroke, VisualState, Wash,
};
use somnium_ui::theme::{semantic_colors, ThemeId, BORDER_FOCUS, TRANSPARENT};

/// The drop fill's opacity as a byte, as the default theme sets it.
const DROP_VALID_ALPHA: u8 = 46;

#[test]
fn selection_is_never_carried_by_colour_alone() {
    let t = ThemeId::Nocturne;
    for paint in [
        tree_row(t, VisualState::with(Interaction::Selected)),
        button(t, VisualState::with(Interaction::Selected)),
        icon_button(t, VisualState::with(Interaction::Selected)),
    ] {
        assert!(paint.rail.is_some());
    }
}

#[test]
fn hover_changes_the_wash_not_the_outline() {
    let t = ThemeId::Nocturne;
    let rest = tree_row(t, VisualState::rest());
    let hover = tree_row(t, VisualState::with(Interaction::Hover));
    assert_ne!(rest.background, hover.background);
    assert_eq!(stroke_width(rest.stroke), stroke_width(hover.stroke));
    assert_eq!(rest.stroke, hover.stroke);
}

#[test]
fn focus_draws_the_ring_over_any_interaction() {
    let t = ThemeId::Nocturne;
    for interaction in [Interaction::Rest, Interaction::Hover, Interaction::Selected] {
        let paint = button(t, VisualState::with(interaction).focused(true));
        assert_eq!(paint.border, BORDER_FOCUS);
        assert_eq!(paint.stroke, Stroke::Focus);
        assert_eq!(stroke_width(paint.stroke), stroke_width(Stroke::Focus));
    }
}

#[test]
fn invalid_recolours_the_outline_and_keeps_the_fill() {
    let t = semantic_colors(ThemeId::Nocturne);
    let rest = input(ThemeId::Nocturne, VisualState::rest());
    let bad = input(ThemeId::Nocturne, VisualState::rest().invalid(true));
    assert_eq!(rest.background, bad.background);
    assert_eq!(bad.border, t.status.error.bytes());
}

#[test]
fn disabled_beats_every_other_interaction_for_foreground() {
    let t = semantic_colors(ThemeId::Nocturne);
    assert_eq!(
        button(ThemeId::Nocturne, VisualState::with(Interaction::Disabled)).foreground,
        t.text.disabled.bytes()
    );
    assert_eq!(
        input(ThemeId::Nocturne, VisualState::with(Interaction::Disabled)).foreground,
        t.text.disabled.bytes()
    );
}

#[test]
fn drop_targets_separate_valid_from_invalid_by_hue_and_by_reason() {
    let id = ThemeId::Nocturne;
    let t = semantic_colors(id);
    assert_eq!(drop_target(id, DropEffect::Move, DROP_VALID_ALPHA).border, t.accent.default.bytes());
    assert_eq!(drop_target(id, DropEffect::Forbidden, DROP_VALID_ALPHA).border, t.status.error.bytes());
    assert_eq!(stroke_width(drop_target(id, DropEffect::Move, DROP_VALID_ALPHA).stroke) as f32, 2.0);
}

#[test]
fn error_rows_override_the_selection_rail_with_the_error_hue() {
    let t = semantic_colors(ThemeId::Nocturne);
    let row = tree_row(ThemeId::Nocturne, VisualState::rest().invalid(true));
    assert_eq!(row.rail, Some(t.status.error.bytes()));
}

#[test]
fn disabled_controls_are_neither_lit_nor_lifted() {
    for id in [ThemeId::Nocturne, ThemeId::Dawn] {
        let state = VisualState::with(Interaction::Disabled).focused(true);
        for paint in [button(id, state), primary_button(id, state), input(id, state), asset_tile(id, state)] {
            assert_eq!(paint.halo, Halo::Unlit);
            assert_eq!(paint.lift, Lift::Flat);
            assert_eq!(paint.foreground, semantic_colors(id).text.disabled.bytes());
            assert_eq!(paint.stroke, Stroke::Focus);
        }
    }
}

#[test]
fn a_focused_enabled_button_blooms() {
    let paint = primary_button(ThemeId::Dawn, VisualState::with(Interaction::Hover).focused(true));
    assert_eq!(paint.halo, Halo::Focus);
    assert_eq!(paint.wash, Wash::AccentPrimary);
    assert_eq!(paint.lift, Lift::Raised);
    assert_eq!(paint.background, semantic_colors(ThemeId::Dawn).accent.hover.bytes());
}

#[test]
fn a_resting_button_takes_the_chrome_wash() {
    let paint = button(ThemeId::Nocturne, VisualState::rest());
    assert_eq!(paint.wash, Wash::Chrome);
    assert_eq!(paint.lift, Lift::Raised);
    assert_eq!(paint.stroke, Stroke::Bare);
    assert_eq!(paint.rail, None);
}

#[test]
fn inputs_sink_and_icons_rest_transparent() {
    let field = input(ThemeId::Nocturne, VisualState::rest());
    assert_eq!(field.sink, Sink::Input);
    assert_eq!(field.corner, Corner::Input);
    assert_eq!(field.stroke, Stroke::Hairline);
    let icon = icon_button(ThemeId::Nocturne, VisualState::rest());
    assert_eq!(icon.background, TRANSPARENT);
}

#[test]
fn an_invalid_row_washes_in_the_error_hue() {
    let error = semantic_colors(ThemeId::Nocturne).status.error.bytes();
    let row = tree_row(ThemeId::Nocturne, VisualState::with(Interaction::Selected).invalid(true).focused(true));
    assert_eq!(row.background, [error[0], error[1], error[2], 0x1A]);
    assert_eq!(row.foreground, error);
    assert_eq!(row.stroke, Stroke::Bare);
    assert_eq!(row.corner, Corner::Square);
}

#[test]
fn drop_fill_takes_the_effect_hue_at_the_given_alpha() {
    let t = semantic_colors(ThemeId::Dawn);
    let paint = drop_target(ThemeId::Dawn, DropEffect::Copy, DROP_VALID_ALPHA);
    let ok = t.status.success.bytes();
    assert_eq!(paint.background, [ok[0], ok[1], ok[2], 46]);
    let link = drop_target(ThemeId::Dawn, DropEffect::Link, 0);
    assert_eq!(link.border, t.status.info.bytes());
}

#[test]
fn the_geometry_ladder_is_whole_pixels() {
    assert_eq!(stroke_width(Stroke::Bare), 0);
    assert_eq!(stroke_width(Stroke::Hairline), 1);
    assert_eq!(stroke_width(Stroke::Rail), 2);
    assert_eq!(corner_radius(Corner::Popup), 4);
    assert_eq!(corner_radius(Corner::Tile), 3);
    assert_eq!(corner_radius(Corner::Square), 0);
    assert_eq!(popup(ThemeId::Nocturne).corner, Corner::Popup);
}
