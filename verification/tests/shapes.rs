use somnium_ui::message::NodeHandle;
use somnium_ui::path::{Cap, Join};
use somnium_ui::shaped::Stream;
use somnium_ui::types::{HorizontalAlignment, VerticalAlignment};
use somnium_ui::ui::GestureToken;

#[test]
fn the_defaults_are_the_plain_choices() {
    assert_eq!(Join::default(), Join::Miter);
    assert_eq!(Cap::default(), Cap::Butt);
    assert_eq!(Stream::default(), Stream::Quad);
    assert_eq!(HorizontalAlignment::default(), HorizontalAlignment::Stretch);
    assert_eq!(VerticalAlignment::default(), VerticalAlignment::Stretch);
}

#[test]
fn a_gesture_token_names_its_owner() {
    let token = GestureToken { owner: NodeHandle::new(4, 2) };
    assert_eq!(token, GestureToken { owner: NodeHandle::new(4, 2) });
    assert_ne!(token, GestureToken { owner: NodeHandle::new(4, 3) });
}
