use somnium_ui::text::localize::TextKey;
use somnium_ui::text::markup::{color_would_cut_a_char, parse_color, parse_role, SPRITE_PLACEHOLDER};
use somnium_ui::text::{Decoration, Direction, ShaperPolicy};
use somnium_ui::typography::FontRole;

#[test]
fn a_latin_paragraph_is_left_to_right() {
    assert_eq!(Direction::of_paragraph("Hello"), Direction::Ltr);
    assert_eq!(Direction::of_paragraph("  \u{2014} Hello"), Direction::Ltr);
}

#[test]
fn an_arabic_paragraph_is_right_to_left() {
    assert_eq!(Direction::of_paragraph("\u{0645}\u{0631}\u{062D}\u{0628}\u{0627}"), Direction::Rtl);
    assert_eq!(Direction::of_paragraph("  (\u{05E9}\u{05DC}\u{05D5}\u{05DD}"), Direction::Rtl);
}

#[test]
fn the_first_strong_character_decides() {
    assert_eq!(
        Direction::of_paragraph("Name: \u{0645}\u{0631}\u{062D}\u{0628}\u{0627}"),
        Direction::Ltr
    );
}

#[test]
fn digits_and_punctuation_are_not_strong() {
    assert_eq!(Direction::of_paragraph("123 !?"), Direction::Ltr);
    assert_eq!(
        Direction::of_paragraph("123 \u{05D0}"),
        Direction::Rtl,
        "the digits are neutral; the Hebrew letter decides"
    );
}

#[test]
fn cjk_is_left_to_right() {
    assert_eq!(Direction::of_paragraph("\u{4F60}\u{597D}"), Direction::Ltr);
    assert_eq!(Direction::of_paragraph("\u{3053}\u{3093}"), Direction::Ltr);
}

#[test]
fn the_shaper_is_off_by_default_and_admits_it() {
    assert_eq!(ShaperPolicy::default(), ShaperPolicy::PerCharacter);
    assert!(!ShaperPolicy::Shaped.is_available());
    assert!(!ShaperPolicy::PerCharacter.is_available());
}

#[test]
fn an_empty_paragraph_is_left_to_right() {
    assert_eq!(Direction::of_paragraph(""), Direction::Ltr);
    assert_eq!(Direction::of_paragraph("  42 "), Direction::Ltr);
    assert!(Direction::Rtl.is_rtl());
    assert!(!Direction::Ltr.is_rtl());
    assert_eq!(Direction::default(), Direction::Ltr);
    assert_eq!(
        Decoration::default(),
        Decoration { bold: false, italic: false, underline: false, strikethrough: false }
    );
}

#[test]
fn parse_color_reads_three_six_and_eight_digits() {
    assert_eq!(parse_color("#f00"), Some([255, 0, 0, 255]));
    assert_eq!(parse_color("#ff8800"), Some([255, 136, 0, 255]));
    assert_eq!(parse_color("#ff880080"), Some([255, 136, 0, 128]));
    assert_eq!(parse_color("ff0000"), Some([255, 0, 0, 255]));
}

#[test]
fn parse_color_repeats_a_short_nibble() {
    assert_eq!(parse_color("#abc"), Some([170, 187, 204, 255]));
}

#[test]
fn bad_colours_are_refused() {
    assert_eq!(parse_color("#ff00"), None);
    assert_eq!(parse_color(""), None);
    assert_eq!(parse_color("#"), None);
    assert_eq!(parse_color("#gg0000"), None);
    assert_eq!(parse_color("##f00"), None);
    assert_eq!(parse_color("#FF8800"), Some([255, 136, 0, 255]));
    // A two-digit piece reads the way `u8::from_str_radix` reads it: a
    // leading `+` is a sign, so "+f" is fifteen.
    assert_eq!(parse_color("#+f0000"), Some([15, 0, 0, 255]));
    assert_eq!(parse_color("#-f0000"), None);
}

#[test]
fn a_colour_that_would_cut_a_character_is_recognised() {
    assert!(!color_would_cut_a_char("#ff8800"));
    assert!(!color_would_cut_a_char("\u{00E9}"));
    assert!(color_would_cut_a_char("a\u{00E9}"));
    assert!(color_would_cut_a_char("#f\u{00E9}000"));
    assert!(!color_would_cut_a_char("#f\u{00E9}0000"));
    assert!(!color_would_cut_a_char("#\u{00E9}0000"));
    assert_eq!(parse_color("#\u{00E9}0000"), None);
}

#[test]
fn parse_role_knows_the_five_cuts_and_their_aliases() {
    for (name, expected) in [
        ("ui", FontRole::UiRegular),
        ("sans", FontRole::UiRegular),
        ("regular", FontRole::UiRegular),
        ("medium", FontRole::UiMedium),
        ("semibold", FontRole::UiSemiBold),
        ("heading", FontRole::UiSemiBold),
        ("mono", FontRole::Mono),
        ("code", FontRole::Mono),
        ("mono-medium", FontRole::MonoMedium),
    ] {
        assert_eq!(parse_role(name), Some(expected), "font={name}");
    }
    assert_eq!(parse_role("comic"), None);
    assert_eq!(parse_role("Mono"), None);
}

#[test]
fn the_sprite_placeholder_is_the_object_replacement_character() {
    assert_eq!(SPRITE_PLACEHOLDER, '\u{FFFC}');
    assert_eq!(SPRITE_PLACEHOLDER.len_utf8(), 3);
}

#[test]
fn a_text_key_is_its_text() {
    assert_eq!(TextKey("menu.file").as_str(), "menu.file");
}

#[test]
fn brackets_and_symbols_before_a_letter_do_not_decide() {
    assert_eq!(Direction::of_paragraph("[\u{05D0}"), Direction::Rtl);
    assert_eq!(Direction::of_paragraph("{~|^_`\\ \u{0645}"), Direction::Rtl);
    assert_eq!(Direction::of_paragraph("\u{00A9}\u{00D7} \u{05D0}"), Direction::Rtl);
    assert_eq!(Direction::of_paragraph("\u{00E9}\u{05D0}"), Direction::Ltr);
    assert_eq!(Direction::of_paragraph("\u{0416} \u{05D0}"), Direction::Ltr);
}
