use somnium_ui::theme::{ThemeId, TEXT_SECONDARY};
use somnium_ui::typography::{text_style, FontRegistry, FontRole, TextRole};

#[test]
fn uninstalled_registry_collapses_every_role_onto_face_zero() {
    assert_eq!(FontRegistry::default().id(FontRole::MonoMedium), 0);
}

#[test]
fn alias_points_a_missing_cut_at_a_loaded_one() {
    let mut reg = FontRegistry::new([0, 1, 2, 3, 4]);
    reg.alias(FontRole::MonoMedium, FontRole::UiRegular);
    assert_eq!(reg.id(FontRole::MonoMedium), 0);
    assert_eq!(reg.id(FontRole::Mono), 3);
}

#[test]
fn every_role_reads_its_own_slot() {
    let mut reg = FontRegistry::new([10, 11, 12, 13, 14]);
    for (i, role) in FontRole::ALL.into_iter().enumerate() {
        assert_eq!(reg.id(role), 10 + i as u8);
    }
    reg.set(FontRole::UiMedium, 99);
    assert_eq!(reg.id(FontRole::UiMedium), 99);
    assert_eq!(reg.id(FontRole::UiRegular), 10);
    let uniform = FontRegistry::uniform(7);
    for role in FontRole::ALL {
        assert_eq!(uniform.id(role), 7);
    }
}

#[test]
fn roles_match_the_approved_token_sheet() {
    let t = ThemeId::Nocturne;
    let section = text_style(t, TextRole::SectionCaps);
    assert_eq!(section.px as f32, 11.0);
    assert!(section.uppercase);
    assert!((section.tracking_hundredths() as f32 / 100.0 - 0.88).abs() < 1e-6);

    let body = text_style(t, TextRole::Body);
    assert_eq!(body.px as f32, 13.0);
    assert_eq!(body.font, FontRole::UiRegular);

    let strong = text_style(t, TextRole::BodyStrong);
    assert_eq!(strong.px as f32, 13.0);
    assert_eq!(strong.font, FontRole::UiMedium);

    let label = text_style(t, TextRole::Label);
    assert_eq!(label.px as f32, 12.0);
    assert_eq!(label.color, TEXT_SECONDARY);
}

#[test]
fn numeric_values_use_a_monospaced_face_so_scrubbing_cannot_shift_a_row() {
    assert_eq!(text_style(ThemeId::Nocturne, TextRole::MonoStrong).font, FontRole::MonoMedium);
}

#[test]
fn section_caps_uppercases_its_label() {
    assert_eq!(text_style(ThemeId::Nocturne, TextRole::SectionCaps).transform("Transform"), "TRANSFORM");
    assert_eq!(text_style(ThemeId::Nocturne, TextRole::Body).transform("Transform"), "Transform");
}

#[test]
fn text_roles_keep_their_size_across_themes_and_recolour() {
    let dark = text_style(ThemeId::Nocturne, TextRole::Display);
    let light = text_style(ThemeId::Dawn, TextRole::Display);
    assert_eq!(dark.px, 22);
    assert_eq!(light.px, 22);
    assert_ne!(dark.color, light.color);
    assert_eq!(light.tracking_hundredths(), 0);
    let tinted = dark.with_color([1, 2, 3, 4]);
    assert_eq!(tinted.color, [1, 2, 3, 4]);
    assert_eq!(tinted.px, 22);
    assert_eq!(text_style(ThemeId::Dawn, TextRole::SectionCaps).transform("straße"), "STRASSE");
}
