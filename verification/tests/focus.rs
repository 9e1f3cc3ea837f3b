use somnium_ui::message::NodeHandle;
use somnium_ui::ui::{
    route_os_input, text_is_insertable, traverse_stop, FocusScope, GestureToken, Modifiers, OsInput, PointerButton,
    PointerRouting, Routed, RoutedKind, TraverseKey,
};

fn node(index: u32) -> NodeHandle {
    NodeHandle::new(index, 1)
}

#[test]
fn modal_focus_is_trapped_and_returns_to_its_invoker() {
    let mut focus = FocusScope::new();
    let invoker = node(1);
    let modal = node(2);
    let inside = node(3);
    focus.set_focus(invoker, false);
    focus.enter_modal(modal, inside);
    focus.set_focus(invoker, false);
    assert_eq!(focus.focused(), inside, "focus cannot escape an active modal");
    assert_eq!(focus.exit_modal(modal, true), invoker);
    assert_eq!(focus.focused(), invoker);
    assert_eq!(focus.modal_root(), None);
}

#[test]
fn focus_moves_freely_inside_the_modal() {
    let mut focus = FocusScope::default();
    focus.enter_modal(node(2), node(3));
    assert_eq!(focus.modal_root(), Some(node(2)));
    assert_eq!(focus.invoker(), Some(NodeHandle::none()));
    focus.set_focus(node(4), true);
    assert_eq!(focus.focused(), node(4));
    focus.set_focus(NodeHandle::none(), true);
    assert_eq!(focus.focused(), node(4));
}

#[test]
fn a_hidden_invoker_leaves_focus_nowhere() {
    let mut focus = FocusScope::new();
    focus.set_focus(node(1), false);
    focus.enter_modal(node(2), node(3));
    assert!(focus.exit_modal(node(2), false).is_none());
    assert!(focus.focused().is_none());
}

#[test]
fn closing_another_scope_changes_nothing() {
    let mut focus = FocusScope::new();
    focus.set_focus(node(1), false);
    focus.enter_modal(node(2), node(3));
    assert_eq!(focus.exit_modal(node(9), true), node(3));
    assert_eq!(focus.modal_root(), Some(node(2)));
}

#[test]
fn arrows_step_between_stops_and_stop_at_the_ends() {
    assert_eq!(traverse_stop(3, Some(0), TraverseKey::ArrowDown), Some(1));
    assert_eq!(traverse_stop(3, Some(2), TraverseKey::ArrowDown), Some(2));
    assert_eq!(traverse_stop(3, Some(0), TraverseKey::ArrowUp), Some(0));
    assert_eq!(traverse_stop(3, Some(2), TraverseKey::ArrowUp), Some(1));
    assert_eq!(traverse_stop(3, None, TraverseKey::ArrowDown), Some(0));
    assert_eq!(traverse_stop(3, None, TraverseKey::ArrowUp), Some(2));
    assert_eq!(traverse_stop(30, Some(4), TraverseKey::End), Some(29));
    assert_eq!(traverse_stop(30, Some(4), TraverseKey::Home), Some(0));
    assert_eq!(traverse_stop(0, None, TraverseKey::Home), None);
}

#[test]
fn a_gesture_names_its_owner() {
    let token = GestureToken { owner: node(5) };
    assert_eq!(token, GestureToken { owner: node(5) });
    assert_ne!(token, GestureToken { owner: node(6) });
}

const NO_MODS: Modifiers = Modifiers { ctrl: false, shift: false, alt: false, logo: false };

fn press(button: PointerButton) -> OsInput<u32> {
    OsInput::MouseButton { pressed: true, button }
}

fn release(button: PointerButton) -> OsInput<u32> {
    OsInput::MouseButton { pressed: false, button }
}

fn to(target: NodeHandle, kind: RoutedKind<u32>) -> Routed<u32> {
    Routed { target, kind }
}

#[test]
fn cursor_moves_are_never_consumed_and_track_the_hover() {
    let viewport = node(1);
    let button = node(7);
    let mut state = PointerRouting::new();
    let (consumed, sent) = route_os_input(&mut state, OsInput::<u32>::CursorMoved, Some(button), viewport, false, false);
    assert!(!consumed);
    assert_eq!(sent, vec![to(button, RoutedKind::MouseEnter)]);
    assert_eq!(state.hovered, button);
    let (consumed, sent) = route_os_input(&mut state, OsInput::<u32>::CursorMoved, Some(button), viewport, false, false);
    assert!(!consumed);
    assert!(sent.is_empty());
    let (consumed, sent) = route_os_input(&mut state, OsInput::<u32>::CursorMoved, Some(viewport), viewport, false, false);
    assert!(!consumed);
    assert_eq!(sent, vec![to(button, RoutedKind::MouseLeave)]);
    assert!(state.hovered.is_none());
}

#[test]
fn a_press_focuses_and_captures_and_the_release_returns_to_it() {
    let viewport = node(1);
    let field = node(4);
    let other = node(5);
    let mut state = PointerRouting::new();
    let (consumed, sent) = route_os_input(&mut state, press(PointerButton::Left), Some(field), viewport, false, false);
    assert!(consumed);
    assert_eq!(
        sent,
        vec![to(field, RoutedKind::Focus), to(field, RoutedKind::MouseDown(PointerButton::Left, NO_MODS))]
    );
    assert_eq!(state.focus.focused(), field);
    assert_eq!(state.captured, field);
    let (_, sent) = route_os_input(&mut state, OsInput::<u32>::CursorMoved, Some(other), viewport, false, false);
    assert_eq!(sent[0], to(field, RoutedKind::MouseMove(NO_MODS)));
    let (consumed, sent) = route_os_input(&mut state, release(PointerButton::Left), Some(other), viewport, false, false);
    assert!(consumed);
    assert_eq!(sent, vec![to(field, RoutedKind::MouseUp(PointerButton::Left, NO_MODS))]);
    assert!(state.captured.is_none());
    let (_, sent) = route_os_input(&mut state, press(PointerButton::Left), Some(other), viewport, false, false);
    assert_eq!(sent[0], to(field, RoutedKind::Unfocus));
    assert_eq!(state.focus.focused(), other);
}

#[test]
fn the_right_button_over_the_viewport_passes_to_the_scene() {
    let viewport = node(1);
    let mut state = PointerRouting::new();
    route_os_input(&mut state, press(PointerButton::Left), Some(node(4)), viewport, false, false);
    let (consumed, sent) = route_os_input(&mut state, press(PointerButton::Right), Some(viewport), viewport, false, false);
    assert!(!consumed);
    assert!(sent.is_empty());
    assert_eq!(state.focus.focused(), node(4));
    let (consumed, sent) = route_os_input(&mut state, press(PointerButton::Right), None, viewport, false, false);
    assert!(!consumed);
    assert!(sent.is_empty());
}

#[test]
fn a_click_on_the_viewport_drops_the_focus() {
    let viewport = node(1);
    let mut state = PointerRouting::new();
    route_os_input(&mut state, press(PointerButton::Left), Some(node(4)), viewport, false, false);
    route_os_input(&mut state, release(PointerButton::Left), Some(node(4)), viewport, false, false);
    let (consumed, sent) = route_os_input(&mut state, press(PointerButton::Left), None, viewport, false, false);
    assert!(!consumed);
    assert_eq!(sent, vec![to(node(4), RoutedKind::Unfocus)]);
    assert!(state.focus.focused().is_none());
}

#[test]
fn keys_are_consumed_only_while_a_text_widget_has_focus() {
    let viewport = node(1);
    let field = node(4);
    let mut state = PointerRouting::new();
    let key = |pressed: bool, text: Option<&str>| OsInput::Key { code: Some(65u32), pressed, text: text.map(String::from) };
    let (consumed, sent) = route_os_input(&mut state, key(true, Some("a")), None, viewport, false, true);
    assert!(!consumed, "nothing is focused");
    assert!(sent.is_empty());
    route_os_input(&mut state, press(PointerButton::Left), Some(field), viewport, false, false);
    let (consumed, sent) = route_os_input(&mut state, key(true, Some("a")), None, viewport, false, false);
    assert!(!consumed, "the focused widget takes no text");
    assert!(sent.is_empty());
    let (consumed, sent) = route_os_input(&mut state, key(true, Some("a")), None, viewport, false, true);
    assert!(consumed);
    assert_eq!(
        sent,
        vec![to(field, RoutedKind::KeyDown(65, NO_MODS)), to(field, RoutedKind::Text(String::from("a")))]
    );
    let (_, sent) = route_os_input(&mut state, key(true, Some("\u{8}")), None, viewport, false, true);
    assert_eq!(sent, vec![to(field, RoutedKind::KeyDown(65, NO_MODS))], "control codes are not typed");
    let (consumed, sent) = route_os_input(&mut state, key(false, Some("a")), None, viewport, false, true);
    assert!(consumed);
    assert_eq!(sent, vec![to(field, RoutedKind::KeyUp(65, NO_MODS))]);
}

#[test]
fn an_active_modal_swallows_presses_outside_it() {
    let viewport = node(1);
    let mut state = PointerRouting::new();
    state.focus.enter_modal(node(8), node(9));
    let (consumed, sent) = route_os_input(&mut state, press(PointerButton::Left), Some(node(4)), viewport, false, false);
    assert!(consumed);
    assert!(sent.is_empty());
    assert_eq!(state.focus.focused(), node(9));
    assert!(state.captured.is_none());
    let (consumed, _) = route_os_input(&mut state, press(PointerButton::Left), Some(node(10)), viewport, true, false);
    assert!(consumed);
    assert_eq!(state.focus.focused(), node(10));
}

#[test]
fn modifiers_and_the_wheel_reach_the_widget_under_the_cursor() {
    let viewport = node(1);
    let mut state = PointerRouting::new();
    let ctrl = Modifiers { ctrl: true, shift: false, alt: false, logo: false };
    let (consumed, _) = route_os_input(&mut state, OsInput::<u32>::ModifiersChanged(ctrl), None, viewport, false, false);
    assert!(!consumed);
    let (consumed, sent) = route_os_input(&mut state, OsInput::<u32>::MouseWheel, Some(node(6)), viewport, false, false);
    assert!(consumed);
    assert_eq!(sent, vec![to(node(6), RoutedKind::MouseWheel(ctrl))]);
    let (consumed, sent) = route_os_input(&mut state, OsInput::<u32>::MouseWheel, Some(viewport), viewport, false, false);
    assert!(!consumed);
    assert!(sent.is_empty());
    let (consumed, _) = route_os_input(&mut state, OsInput::<u32>::Other, Some(node(6)), viewport, false, false);
    assert!(!consumed);
}

#[test]
fn typed_text_needs_a_printable_character() {
    assert!(text_is_insertable("a"));
    assert!(text_is_insertable("\u{1b}x"));
    assert!(!text_is_insertable(""));
    assert!(!text_is_insertable("\u{7f}\r"));
    assert!(text_is_insertable("\u{a0}"));
}

#[test]
fn shift_held_is_delivered_to_the_focused_widget() {
    let viewport = node(1);
    let probe = node(2);
    let mut state = PointerRouting::new();
    state.focus.set_focus(probe, false);
    let shift = Modifiers { shift: true, ..NO_MODS };
    route_os_input(&mut state, OsInput::<u32>::ModifiersChanged(shift), None, viewport, false, true);
    let (_, sent) = route_os_input(
        &mut state,
        OsInput::Key { code: Some(30u32), pressed: true, text: None },
        None,
        viewport,
        false,
        true,
    );
    assert_eq!(sent.len(), 1, "key delivered");
    assert_eq!(sent[0].target, probe);
    match sent[0].kind {
        RoutedKind::KeyDown(_, delivered) => {
            assert!(delivered.shift);
            assert!(!delivered.ctrl && !delivered.alt && !delivered.logo);
        }
        _ => panic!("a key press becomes a key-down"),
    }
}
