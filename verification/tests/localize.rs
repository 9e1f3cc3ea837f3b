use somnium_ui::text::localize::{LocalizedText, PassthroughResolver, Resolver, TextKey};

/// The arguments a call site hands over, numbers kept as numbers.
#[derive(Clone, Debug, PartialEq)]
enum Argument {
    Count(i64),
    Number(f64),
    Text(String),
}

impl From<i64> for Argument {
    fn from(value: i64) -> Self {
        Argument::Count(value)
    }
}

impl From<f64> for Argument {
    fn from(value: f64) -> Self {
        Argument::Number(value)
    }
}

impl From<&str> for Argument {
    fn from(value: &str) -> Self {
        Argument::Text(value.to_string())
    }
}

fn render(value: &Argument) -> String {
    match value {
        Argument::Count(n) => n.to_string(),
        Argument::Number(n) => n.to_string(),
        Argument::Text(t) => t.clone(),
    }
}

struct Table(&'static str);

impl Resolver<Argument> for Table {
    fn resolve(&self, _key: TextKey, args: &[(&'static str, Argument)]) -> Option<String> {
        let mut out = self.0.to_string();
        for (name, value) in args {
            out = out.replace(&format!("{{{name}}}"), &render(value));
        }
        Some(out)
    }
}

impl Resolver<Argument> for PassthroughResolver {
    fn resolve(&self, key: TextKey, args: &[(&'static str, Argument)]) -> Option<String> {
        let rendered: Vec<(&'static str, String)> = args.iter().map(|(name, value)| (*name, render(value))).collect();
        self.resolve_rendered(key, &rendered)
    }
}

#[test]
fn a_key_resolves_through_the_table() {
    let text = LocalizedText::<Argument>::key("inventory.potions").arg("n", 3i64.into());
    assert_eq!(text.resolve(&Table("You have {n} potions")), "You have 3 potions");
}

#[test]
fn the_translation_decides_where_the_argument_goes() {
    let text = LocalizedText::<Argument>::key("inventory.potions").arg("n", 3i64.into());
    assert_eq!(text.resolve(&Table("You have {n} potions")), "You have 3 potions");
    assert_eq!(text.resolve(&Table("{n} potions remain")), "3 potions remain");
    assert_eq!(text.resolve(&Table("Potions: {n}")), "Potions: 3");
}

#[test]
fn a_count_argument_stays_a_number() {
    let text = LocalizedText::<Argument>::key("k").arg("n", 1i64.into());
    let LocalizedText::Key { args, .. } = &text else {
        panic!("a key");
    };
    assert_eq!(args[0].1, Argument::Count(1));
    assert!(
        matches!(args[0].1, Argument::Count(_)),
        "the resolver must be able to dispatch on the number itself"
    );
}

#[test]
fn a_missing_translation_falls_back_to_the_key() {
    struct Empty;
    impl Resolver<Argument> for Empty {
        fn resolve(&self, _: TextKey, _: &[(&'static str, Argument)]) -> Option<String> {
            None
        }
    }
    let text: LocalizedText<Argument> = LocalizedText::key("inventory.potions");
    assert_eq!(text.resolve(&Empty), "inventory.potions");
}

#[test]
fn a_literal_passes_through_untouched() {
    struct Panics;
    impl Resolver<Argument> for Panics {
        fn resolve(&self, _: TextKey, _: &[(&'static str, Argument)]) -> Option<String> {
            panic!("a literal must not reach the resolver");
        }
    }
    let text: LocalizedText<Argument> = LocalizedText::literal("fps: 60");
    assert_eq!(text.resolve(&Panics), "fps: 60");
    assert!(text.is_literal());
}

#[test]
fn arguments_accept_the_obvious_types() {
    let text = LocalizedText::<Argument>::key("k")
        .arg("count", 2i64.into())
        .arg("ratio", 0.5f64.into())
        .arg("name", "Nerevar".into());
    let LocalizedText::Key { args, .. } = &text else {
        panic!("a key");
    };
    assert_eq!(args[0].1, Argument::Count(2));
    assert_eq!(args[1].1, Argument::Number(0.5));
    assert_eq!(args[2].1, Argument::Text("Nerevar".into()));
}

#[test]
fn arguments_on_a_literal_are_a_no_op() {
    let text: LocalizedText<Argument> = LocalizedText::literal("plain").arg("n", 1i64.into());
    assert_eq!(text, LocalizedText::Literal("plain".into()));
}

#[test]
fn the_passthrough_resolver_substitutes_and_no_more() {
    let text = LocalizedText::<Argument>::key("have {n} of {what}").arg("n", 2i64.into()).arg("what", "potion".into());
    assert_eq!(text.resolve(&PassthroughResolver), "have 2 of potion");
    let bare: LocalizedText<Argument> = LocalizedText::key("menu.quit");
    assert_eq!(bare.resolve(&PassthroughResolver), "menu.quit");
}

#[test]
fn a_placeholder_is_filled_everywhere_and_braces_without_a_name_stay() {
    let rendered = vec![("n", "7".to_string())];
    let out = PassthroughResolver.resolve_rendered(TextKey("{n}/{n} {m} {{n}}"), &rendered);
    assert_eq!(out, Some("7/7 {m} {7}".to_string()));
}

#[test]
fn later_arguments_fill_what_earlier_ones_left() {
    let rendered = vec![("a", "{b}".to_string()), ("b", "x".to_string())];
    let out = PassthroughResolver.resolve_rendered(TextKey("[{a}]"), &rendered);
    assert_eq!(out, Some("[x]".to_string()));
    assert_eq!(PassthroughResolver.resolve_rendered(TextKey("k"), &Vec::new()), None);
}

#[test]
fn shown_text_prefers_the_translation_then_the_key() {
    let text: LocalizedText<Argument> = LocalizedText::key("menu.open");
    assert_eq!(text.shown(Some("Open".to_string())), "Open");
    assert_eq!(text.shown(None), "menu.open");
    let literal: LocalizedText<Argument> = LocalizedText::literal("debug");
    assert_eq!(literal.shown(Some("ignored".to_string())), "debug");
}

#[test]
fn a_key_without_placeholders_comes_back_as_written() {
    let rendered = vec![("n", "2".to_string()), ("what", "potion".to_string())];
    assert_eq!(PassthroughResolver.resolve_rendered(TextKey("menu.quit"), &rendered), Some("menu.quit".to_string()));
}
