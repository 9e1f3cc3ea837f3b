use somnium_ui::text::ime::{Composition, ImeEvent, ImeOutcome};

fn preedit(text: &str) -> ImeEvent {
    ImeEvent::Preedit {
        text: text.to_string(),
        cursor: Some((text.len(), text.len())),
    }
}

#[test]
fn a_romanised_composition_never_reaches_the_buffer() {
    let mut ime = Composition::new();
    assert_eq!(ime.handle(ImeEvent::Enabled), ImeOutcome::Ignored);

    for step in ["n", "ni", "nih", "niho", "nihon"] {
        assert_eq!(ime.handle(preedit(step)), ImeOutcome::PreeditChanged);
        assert_eq!(ime.preedit(), step);
        assert!(ime.is_composing());
    }

    assert_eq!(
        ime.handle(ImeEvent::Commit("\u{65E5}\u{672C}".into())),
        ImeOutcome::Commit("\u{65E5}\u{672C}".into()),
        "only the confirmed text is real"
    );
    assert!(!ime.is_composing());
    assert_eq!(ime.preedit(), "", "no stale preedit drawn over the result");
}

#[test]
fn enter_is_swallowed_while_composing() {
    let mut ime = Composition::new();
    ime.handle(ImeEvent::Enabled);
    assert!(!ime.swallows_enter(), "nothing composing, Enter submits");

    ime.handle(preedit("nihon"));
    assert!(ime.swallows_enter());

    ime.handle(ImeEvent::Commit("\u{65E5}\u{672C}".into()));
    assert!(!ime.swallows_enter(), "composition over, Enter submits again");
}

#[test]
fn an_empty_preedit_with_no_cursor_cancels() {
    let mut ime = Composition::new();
    ime.handle(ImeEvent::Enabled);
    ime.handle(preedit("nih"));
    assert_eq!(
        ime.handle(ImeEvent::Preedit {
            text: String::new(),
            cursor: None
        }),
        ImeOutcome::Cancelled
    );
    assert!(!ime.is_composing());
}

#[test]
fn cancelling_nothing_is_ignored() {
    let mut ime = Composition::new();
    assert_eq!(
        ime.handle(ImeEvent::Preedit {
            text: String::new(),
            cursor: None
        }),
        ImeOutcome::Ignored
    );
}

#[test]
fn an_unchanged_preedit_is_ignored() {
    let mut ime = Composition::new();
    ime.handle(ImeEvent::Enabled);
    assert_eq!(ime.handle(preedit("ni")), ImeOutcome::PreeditChanged);
    assert_eq!(ime.handle(preedit("ni")), ImeOutcome::Ignored);
}

#[test]
fn disabling_mid_composition_cancels_rather_than_commits() {
    let mut ime = Composition::new();
    ime.handle(ImeEvent::Enabled);
    ime.handle(preedit("nihon"));
    assert_eq!(ime.handle(ImeEvent::Disabled), ImeOutcome::Cancelled);
    assert!(!ime.is_composing());
    assert!(!ime.is_enabled());
}

#[test]
fn re_enabling_discards_a_stale_composition() {
    let mut ime = Composition::new();
    ime.handle(ImeEvent::Enabled);
    ime.handle(preedit("nih"));
    assert_eq!(ime.handle(ImeEvent::Enabled), ImeOutcome::Cancelled);
    assert_eq!(ime.preedit(), "");
}

#[test]
fn an_empty_commit_ends_composition_without_inserting() {
    let mut ime = Composition::new();
    ime.handle(ImeEvent::Enabled);
    ime.handle(preedit("ni"));
    assert_eq!(ime.handle(ImeEvent::Commit(String::new())), ImeOutcome::Cancelled);
    assert!(!ime.is_composing());
}

#[test]
fn the_preedit_cursor_survives() {
    let mut ime = Composition::new();
    ime.handle(ImeEvent::Enabled);
    ime.handle(ImeEvent::Preedit {
        text: "nihon".into(),
        cursor: Some((2, 4)),
    });
    assert_eq!(ime.cursor(), Some((2, 4)));
}

#[test]
fn disabling_when_idle_is_ignored_and_a_commit_from_idle_still_lands() {
    let mut ime = Composition::new();
    ime.handle(ImeEvent::Enabled);
    assert_eq!(ime.handle(ImeEvent::Commit("a".into())), ImeOutcome::Commit("a".into()));
    assert_eq!(ime.handle(ImeEvent::Disabled), ImeOutcome::Ignored);
    assert!(!ime.is_enabled());
    assert_eq!(ime.cursor(), None);
}
