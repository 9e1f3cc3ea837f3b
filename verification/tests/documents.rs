use somnium_ui::message::NodeHandle;
use somnium_ui::somui::kinds;
use somnium_ui::somui::{validate_facts, DocumentError, ElementFacts, UiInstance, CURRENT_VERSION};

fn element(kind: &str, name: &str) -> ElementFacts {
    ElementFacts {
        kind: kind.to_string(),
        name: name.to_string(),
        kind_known: kind != "definitely_not_a_widget",
        placement_valid: true,
    }
}

#[test]
fn a_sound_document_passes() {
    let elements = vec![element("panel", "Root"), element("text", "Title"), element("button", "Ok")];
    assert_eq!(validate_facts(CURRENT_VERSION, true, &elements), Ok(()));
    assert_eq!(validate_facts(0, true, &Vec::new()), Ok(()));
}

#[test]
fn duplicate_and_missing_names_are_both_errors() {
    let elements = vec![element("panel", "Root"), element("text", "Same"), element("text", "Same"), element("text", "")];
    assert_eq!(
        validate_facts(CURRENT_VERSION, true, &elements),
        Err(vec![
            DocumentError::DuplicateName("Same".into()),
            DocumentError::UnnamedElement { kind: "text".into() },
        ])
    );
}

#[test]
fn validation_reports_every_problem_rather_than_the_first() {
    let mut bad = element("definitely_not_a_widget", "Root");
    bad.placement_valid = false;
    let elements = vec![bad, element("text", "Root")];
    assert_eq!(
        validate_facts(CURRENT_VERSION + 1, false, &elements),
        Err(vec![
            DocumentError::FromTheFuture { found: CURRENT_VERSION + 1, current: CURRENT_VERSION },
            DocumentError::InvalidReference,
            DocumentError::UnknownKind { element: "Root".into(), kind: "definitely_not_a_widget".into() },
            DocumentError::InvalidPlacement { element: "Root".into() },
            DocumentError::DuplicateName("Root".into()),
        ])
    );
}

#[test]
fn an_instance_finds_widgets_by_authored_name() {
    let mut instance = UiInstance::default();
    assert_eq!(instance.handle("HealthBar"), None);
    instance.record("Root", None, NodeHandle::new(1, 1));
    instance.record("HealthBar", Some("Root"), NodeHandle::new(2, 1));
    assert_eq!(instance.handle("HealthBar"), Some(NodeHandle::new(2, 1)));
    assert_eq!(instance.handle("Root"), Some(NodeHandle::new(1, 1)));
    assert_eq!(instance.handle("healthbar"), None);
    instance.record("HealthBar", Some("Root"), NodeHandle::new(7, 3));
    assert_eq!(instance.handle("HealthBar"), Some(NodeHandle::new(7, 3)));
    assert_eq!(UiInstance::new().handle("Root"), None);
}

#[test]
fn kind_ids_are_unique() {
    let mut ids: Vec<&str> = kinds::ALL.iter().copied().collect();
    ids.sort_unstable();
    let before = ids.len();
    ids.dedup();
    assert_eq!(before, ids.len(), "duplicate kind id");
}

#[test]
fn only_registered_kinds_are_known() {
    assert!(kinds::is_registered("checkBox"));
    assert!(kinds::is_registered(kinds::STACK));
    assert!(!kinds::is_registered("checkbox"));
    assert!(!kinds::is_registered(""));
}

#[test]
fn every_registered_kind_is_reachable_by_its_id() {
    for id in kinds::ALL {
        assert!(kinds::is_registered(id), "{id} is not findable");
    }
    assert!(!kinds::is_registered("no-such-widget"));
}

#[test]
fn the_palette_is_generated_from_the_registry() {
    let palette = kinds::palette();
    let listed: usize = palette.iter().map(|(_, kinds)| kinds.len()).sum();
    assert_eq!(listed, kinds::ALL.len(), "a registered kind is missing from the palette");
    assert!(
        palette.iter().any(|(name, _)| *name == "Layout"),
        "categories should group: {:?}",
        palette.iter().map(|(n, _)| *n).collect::<Vec<_>>()
    );
}

#[test]
fn the_palette_groups_by_first_appearance_in_registration_order() {
    let palette = kinds::palette();
    assert_eq!(
        palette,
        vec![
            ("Layout", vec![kinds::PANEL, kinds::STACK]),
            ("Content", vec![kinds::TEXT, kinds::IMAGE]),
            ("Input", vec![kinds::BUTTON, kinds::CHECK_BOX]),
        ]
    );
    assert_eq!(kinds::LABELS[3], "Stack Panel");
}

#[test]
fn grouping_keeps_positions_ascending_and_names_distinct() {
    let groups = kinds::group_by_name(&vec!["b", "a", "b", "c", "a"]);
    assert_eq!(groups, vec![("b", vec![0, 2]), ("a", vec![1, 4]), ("c", vec![3])]);
    assert!(kinds::group_by_name(&vec![]).is_empty());
}
