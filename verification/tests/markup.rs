use somnium_ui::text::markup::{
    markup_tags, parse, try_parse, MarkupError, MarkupRun, MotionBits, TagReading, SPRITE_PLACEHOLDER,
};
use somnium_ui::text::Decoration;
use somnium_ui::typography::FontRole;

/// What a caller reads of each opening tag's numbers.
fn readings_for(markup: &str) -> Vec<TagReading> {
    markup_tags(markup)
        .iter()
        .map(|(name, value)| match name.as_str() {
            "size" => TagReading::Size(
                value
                    .as_deref()
                    .and_then(|v| v.parse::<f32>().ok())
                    .filter(|v| *v > 0.0)
                    .map(f32::to_bits),
            ),
            "wave" => {
                let mut parts = value.as_deref().unwrap_or("2,2").split(',');
                let amplitude = parts.next().and_then(|v| v.trim().parse::<f32>().ok()).unwrap_or(2.0);
                let frequency = parts.next().and_then(|v| v.trim().parse::<f32>().ok()).unwrap_or(2.0);
                TagReading::Wave { amplitude: amplitude.to_bits(), frequency: frequency.to_bits() }
            }
            "shake" => TagReading::Shake {
                amplitude: value
                    .as_deref()
                    .and_then(|v| v.trim().parse::<f32>().ok())
                    .unwrap_or(1.5)
                    .to_bits(),
            },
            _ => TagReading::Nothing,
        })
        .collect()
}

fn parse_markup(markup: &str) -> Result<(String, Vec<MarkupRun>), MarkupError> {
    parse(markup, &readings_for(markup))
}

fn runs_of(markup: &str) -> (String, Vec<MarkupRun>) {
    parse_markup(markup).expect("parses")
}

#[test]
fn plain_text_is_one_run() {
    let (text, runs) = runs_of("hello");
    assert_eq!(text, "hello");
    assert_eq!(runs.len(), 1);
    assert_eq!(runs[0].range, 0..5);
    assert_eq!(runs[0].style.color, None);
}

#[test]
fn text_with_no_content_produces_no_runs() {
    let (text, runs) = runs_of("");
    assert!(text.is_empty());
    assert!(runs.is_empty());
}

#[test]
fn ranges_index_the_stripped_text() {
    let (text, runs) = runs_of("ab[b]cd[/b]ef");
    assert_eq!(text, "abcdef");
    assert_eq!(runs.len(), 3);
    assert_eq!(runs[0].range, 0..2);
    assert_eq!(runs[1].range, 2..4);
    assert_eq!(runs[2].range, 4..6);
    assert_eq!(&text[runs[1].range.clone()], "cd");
    assert!(runs[1].style.decoration.bold);
    assert!(!runs[2].style.decoration.bold, "the close undoes exactly what the open did");
}

#[test]
fn every_decoration_round_trips() {
    for (tag, check) in [
        ("b", (|d: Decoration| d.bold) as fn(Decoration) -> bool),
        ("i", |d| d.italic),
        ("u", |d| d.underline),
        ("s", |d| d.strikethrough),
    ] {
        let (_, runs) = runs_of(&format!("[{tag}]x[/{tag}]"));
        assert!(check(runs[0].style.decoration), "tag {tag}");
    }
}

#[test]
fn colours_accept_three_six_and_eight_digits() {
    assert_eq!(runs_of("[color=#f00]x[/color]").1[0].style.color, Some([255, 0, 0, 255]));
    assert_eq!(runs_of("[color=#ff8800]x[/color]").1[0].style.color, Some([255, 136, 0, 255]));
    assert_eq!(runs_of("[color=#ff880080]x[/color]").1[0].style.color, Some([255, 136, 0, 128]));
    assert_eq!(runs_of("[color=ff0000]x[/color]").1[0].style.color, Some([255, 0, 0, 255]));
}

#[test]
fn a_three_digit_colour_repeats_its_nibbles() {
    assert_eq!(runs_of("[color=#abc]x[/color]").1[0].style.color, Some([170, 187, 204, 255]));
}

#[test]
fn nesting_restores_the_outer_style() {
    let (text, runs) = runs_of("[color=#f00]a[b]b[/b]c[/color]");
    assert_eq!(text, "abc");
    assert_eq!(runs.len(), 3);
    for run in &runs {
        assert_eq!(run.style.color, Some([255, 0, 0, 255]), "colour spans all three");
    }
    assert!(!runs[0].style.decoration.bold);
    assert!(runs[1].style.decoration.bold);
    assert!(!runs[2].style.decoration.bold, "the inner close restores the outer style");
}

#[test]
fn a_sprite_occupies_exactly_one_character() {
    let (text, runs) = runs_of("press [sprite=key_e] to open");
    assert_eq!(text.chars().filter(|c| *c == SPRITE_PLACEHOLDER).count(), 1);
    assert_eq!(text.chars().count(), "press  to open".chars().count() + 1);
    let sprite = runs.iter().find(|r| r.sprite.is_some()).expect("a sprite run");
    assert_eq!(sprite.sprite.as_deref(), Some("key_e"));
    assert_eq!(&text[sprite.range.clone()], "\u{FFFC}");
}

#[test]
fn links_and_motion_reach_their_runs() {
    let (_, runs) = runs_of("[link=quest_12]see the steward[/link]");
    assert_eq!(runs[0].style.link.as_deref(), Some("quest_12"));

    let (_, runs) = runs_of("[wave=3,4]!!![/wave]");
    assert_eq!(
        runs[0].style.motion,
        MotionBits::Wave { amplitude: 3.0f32.to_bits(), frequency: 4.0f32.to_bits() }
    );

    let (_, runs) = runs_of("[shake=2]999[/shake]");
    assert_eq!(runs[0].style.motion, MotionBits::Shake { amplitude: 2.0f32.to_bits() });
}

#[test]
fn motion_tags_have_defaults() {
    assert!(matches!(runs_of("[wave]x[/wave]").1[0].style.motion, MotionBits::Wave { .. }));
    assert!(matches!(runs_of("[shake]x[/shake]").1[0].style.motion, MotionBits::Shake { .. }));
}

#[test]
fn an_unknown_tag_survives_as_text() {
    let (text, _) = runs_of("hp [blink]low[/blink]");
    assert_eq!(text, "hp [blink]low[/blink]");
}

#[test]
fn an_unclosed_unknown_tag_is_just_a_sentence() {
    assert_eq!(runs_of("press [E] now").0, "press [E] now");
    assert_eq!(runs_of("[WIP] feature").0, "[WIP] feature");
}

#[test]
fn brackets_in_ordinary_text_are_safe() {
    assert_eq!(runs_of("HP < 20").0, "HP < 20");
    assert_eq!(runs_of("press [E]").0, "press [E]");
    assert_eq!(runs_of("unterminated [").0, "unterminated [");
    assert_eq!(runs_of("[[literal").0, "[literal");
}

#[test]
fn a_bad_value_is_an_error_rather_than_a_guess() {
    assert!(runs_of("[color=nonsense]x[/color]").0.contains("[color=nonsense]"));
    assert!(runs_of("[size=-4]x[/size]").0.contains("[size=-4]"));
}

#[test]
fn an_unmatched_close_names_its_position() {
    let error = parse_markup("abc[/b]").unwrap_err();
    assert_eq!(error, MarkupError::Unmatched { at: 3, tag: "b".into() });
    assert!(error.message().contains("byte 3"));
}

#[test]
fn an_unclosed_tag_names_the_tag_that_is_open() {
    let error = parse_markup("[b]forever").unwrap_err();
    assert_eq!(error, MarkupError::Unclosed { at: 0, tag: "b".into() });
}

#[test]
fn crossed_tags_are_an_error() {
    let error = parse_markup("[b]x[i]y[/b]z[/i]").unwrap_err();
    assert!(matches!(error, MarkupError::Unmatched { tag, .. } if tag == "b"));
}

#[test]
fn ranges_stay_on_char_boundaries_in_multibyte_text() {
    let (text, runs) = runs_of("\u{4F60}[b]\u{597D}[/b]\u{4E16}");
    assert_eq!(text, "\u{4F60}\u{597D}\u{4E16}");
    assert_eq!(runs.len(), 3);
    for run in &runs {
        let _ = &text[run.range.clone()];
    }
    assert_eq!(&text[runs[1].range.clone()], "\u{597D}");
}

#[test]
fn a_tag_wrapping_nothing_produces_no_empty_run() {
    let (text, runs) = runs_of("a[b][/b]b");
    assert_eq!(text, "ab");
    assert!(runs.iter().all(|r| !r.range.is_empty()));
}

#[test]
fn font_names_map_onto_the_five_bundled_cuts() {
    for (name, expected) in [
        ("ui", FontRole::UiRegular),
        ("sans", FontRole::UiRegular),
        ("medium", FontRole::UiMedium),
        ("semibold", FontRole::UiSemiBold),
        ("mono", FontRole::Mono),
        ("code", FontRole::Mono),
        ("mono-medium", FontRole::MonoMedium),
    ] {
        let (_, runs) = runs_of(&format!("[font={name}]x[/font]"));
        assert_eq!(runs[0].style.role, Some(expected), "font={name}");
    }
    assert!(runs_of("[font=comic]x[/font]").0.contains("[font=comic]"));
}

#[test]
fn tags_are_listed_trimmed_in_order() {
    let tags = markup_tags("a[ b ][/b][ color = #f00 ]x[sprite=k][[y[unterminated");
    assert_eq!(
        tags,
        vec![
            ("b".to_string(), None),
            ("color".to_string(), Some("#f00".to_string())),
            ("sprite".to_string(), Some("k".to_string())),
        ]
    );
    let unicode = markup_tags("[\u{3000}b\u{2003}]");
    assert_eq!(unicode, vec![("b".to_string(), None)]);
}

#[test]
fn a_sprite_needs_a_name_and_a_colour_that_cuts_a_character_is_refused() {
    assert_eq!(
        parse_markup("[sprite]").unwrap_err(),
        MarkupError::BadValue { at: 0, tag: "sprite".into() }
    );
    assert_eq!(
        parse_markup("x[sprite= ]").unwrap_err(),
        MarkupError::BadValue { at: 1, tag: "sprite".into() }
    );
    let cut = "[color=a\u{00E9}]x[/color]";
    assert!(try_parse(cut, &readings_for(cut)).is_none());
    assert!(try_parse("[b]x[/b]", &Vec::new()).is_some());
}

#[test]
fn a_style_that_changes_nothing_still_opens_a_scope() {
    let (text, runs) = runs_of("[b]a[b]b[/b]c[/b]");
    assert_eq!(text, "abc");
    assert_eq!(runs.len(), 2, "{runs:?}");
    assert_eq!(runs[0].range, 0..2, "the unchanged inner tag splits nothing");
    assert!(runs.iter().all(|r| r.style.decoration.bold));
    // A NaN amplitude never equals the one before it, so the run splits.
    let (_, runs) = runs_of("[shake=nan]a[shake=nan]b[/shake][/shake]");
    assert_eq!(runs.len(), 2);
    // Missing readings leave number tags as text.
    assert_eq!(parse("[size=12]x[/size]", &Vec::new()).unwrap().0, "[size=12]x[/size]");
}
