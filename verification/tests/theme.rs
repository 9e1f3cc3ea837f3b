use somnium_ui::typography::{text_style, TextRole};
use somnium_ui::style::{status, Interaction, StatusKind, VisualState};
use somnium_ui::theme::{
    ember, flatten, is_light, motion, semantic_colors, with_alpha, Srgb8, ThemeId, ACCENT, ACCENT_DIM,
    BG_PANEL, STATUS_ERROR, STATUS_INFO, STATUS_OK, STATUS_WARN, TOOLTIP_DELAY_MS,
};

#[test]
fn panel_token_is_the_approved_authored_srgb_value() {
    assert_eq!(BG_PANEL, [0x1C, 0x1E, 0x26, 0xFF]);
}

#[test]
fn selected_fill_keeps_straight_alpha() {
    assert_eq!(ACCENT_DIM, [0x7A, 0x86, 0xFF, 0x29]);
}

#[test]
fn the_palette_runs_two_temperatures() {
    for (name, id) in [("Nocturne", ThemeId::Nocturne), ("Dawn", ThemeId::Dawn)] {
        let ember = ember(id).bytes();
        assert!(ember[0] > ember[2], "{name}: ember {ember:?} is not warm");
        let accent = semantic_colors(id).accent.default.bytes();
        assert!(accent[2] > accent[0], "{name}: accent {accent:?} is not cool");
    }
}

#[test]
fn the_snapshots_hold_their_authored_values() {
    let nocturne = semantic_colors(ThemeId::Nocturne);
    assert_eq!(nocturne.surface.panel.bytes(), BG_PANEL);
    assert_eq!(nocturne.accent.default.bytes(), ACCENT);
    assert_eq!(nocturne.accent.selected_bg.bytes(), ACCENT_DIM);
    let dawn = semantic_colors(ThemeId::Dawn);
    assert_eq!(dawn.surface.panel.bytes(), [0xF5, 0xF6, 0xFA, 0xFF]);
    assert_eq!(dawn.accent.default.bytes(), [0x3A, 0x46, 0xC8, 0xFF]);
    assert_eq!(dawn.surface.selected.bytes(), [0x4A, 0x56, 0xE0, 0x29]);
    assert!(is_light(ThemeId::Dawn));
    assert!(!is_light(ThemeId::Nocturne));
    assert_eq!(motion(ThemeId::Dawn).tooltip_delay_ms, TOOLTIP_DELAY_MS);
    assert_eq!(motion(ThemeId::Nocturne).tooltip_delay_ms, TOOLTIP_DELAY_MS);
}

#[test]
fn switching_theme_changes_paint_but_keeps_motion() {
    let dark = semantic_colors(ThemeId::Nocturne);
    let light = semantic_colors(ThemeId::Dawn);
    assert_ne!(dark.surface.panel.bytes(), light.surface.panel.bytes(), "and the paint must actually differ");
    let (a, b) = (motion(ThemeId::Nocturne), motion(ThemeId::Dawn));
    assert_eq!(a.press_ms, b.press_ms);
    assert_eq!(a.hover_ms, b.hover_ms);
    assert_eq!(a.popup_ms, b.popup_ms);
    assert_eq!(a.drawer_ms, b.drawer_ms);
}

#[test]
fn theme_ids_round_trip_through_their_stored_byte() {
    for id in [ThemeId::Nocturne, ThemeId::Dawn] {
        assert_eq!(ThemeId::from_stored(id.stored()), id);
    }
    assert_ne!(ThemeId::Nocturne.stored(), ThemeId::Dawn.stored());
}

#[test]
fn srgb8_keeps_its_bytes() {
    assert_eq!(Srgb8::opaque(1, 2, 3).bytes(), [1, 2, 3, 255]);
    assert_eq!(Srgb8::rgba(1, 2, 3, 4).bytes(), [1, 2, 3, 4]);
    assert_eq!(with_alpha(ACCENT, 0x29), ACCENT_DIM);
}

#[test]
fn flatten_matches_the_float_blend_for_every_byte() {
    for a in 0..=255u32 {
        let alpha = a as f32 / 255.0;
        for t in 0..=255u32 {
            for b in 0..=255u32 {
                let expected = ((t as f32 * alpha) + (b as f32 * (1.0 - alpha))).round() as u8;
                let got = flatten([b as u8, 0, 0, 77], [t as u8, 0, 0, a as u8]);
                assert_eq!(got[0], expected, "top {t} bottom {b} alpha {a}");
            }
        }
    }
}

#[test]
fn flatten_keeps_the_bottom_alpha_and_the_ends_of_the_range() {
    assert_eq!(flatten([10, 20, 30, 40], [200, 100, 0, 255]), [200, 100, 0, 40]);
    assert_eq!(flatten([10, 20, 30, 40], [200, 100, 0, 0]), [10, 20, 30, 40]);
    assert_eq!(flatten([0, 0, 0, 255], [255, 255, 255, 128]), [128, 128, 128, 255]);
}

#[test]
fn status_colours_follow_the_theme() {
    assert_eq!(status(ThemeId::Nocturne, StatusKind::Info), STATUS_INFO);
    assert_eq!(status(ThemeId::Nocturne, StatusKind::Success), STATUS_OK);
    assert_eq!(status(ThemeId::Nocturne, StatusKind::Warning), STATUS_WARN);
    assert_eq!(status(ThemeId::Nocturne, StatusKind::Error), STATUS_ERROR);
    assert_eq!(status(ThemeId::Dawn, StatusKind::Error), [0x9B, 0x1C, 0x1C, 0xFF]);
    assert_eq!(status(ThemeId::Dawn, StatusKind::Busy), [0x3A, 0x46, 0xC8, 0xFF]);
}

#[test]
fn visual_states_compose() {
    let rest = VisualState::rest();
    assert_eq!(rest.interaction, Interaction::Rest);
    assert!(!rest.focused && !rest.modified && !rest.invalid);
    let s = VisualState::with(Interaction::Disabled).focused(true).invalid(true);
    assert!(s.is_disabled());
    assert!(s.focused && s.invalid && !s.modified);
    assert!(!VisualState::with(Interaction::Hover).modified(true).is_disabled());
    assert_eq!(Interaction::default(), Interaction::Rest);
}

#[test]
fn switching_theme_changes_paint_and_never_layout() {
    assert_eq!(text_style(ThemeId::Nocturne, TextRole::Body).px, text_style(ThemeId::Dawn, TextRole::Body).px);
    assert_eq!(motion(ThemeId::Nocturne).hover_ms, motion(ThemeId::Dawn).hover_ms);
    assert_ne!(
        semantic_colors(ThemeId::Nocturne).surface.panel.bytes(),
        semantic_colors(ThemeId::Dawn).surface.panel.bytes(),
        "and the paint must actually differ"
    );
}
