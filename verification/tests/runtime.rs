use somnium_ui::message::NodeHandle;
use somnium_ui::runtime::canvas::{sort_by_layer, Layer};
use somnium_ui::runtime::nav::{Direction, InputSource, NavLinks};
use somnium_ui::runtime::nav::first_focus_keyed;
use somnium_ui::runtime::nav::navigate_scored;

fn handle(index: u32) -> NodeHandle {
    NodeHandle::new(index, 1)
}

/// Layers sort, and ties keep registration order.
#[test]
fn canvases_sort_by_layer_then_registration() {
    let mut canvases = vec![
        (Layer::overlay(), 0),
        (Layer::hud(), 1),
        (Layer::hud(), 2),
        (Layer::menu(), 3),
    ];
    sort_by_layer(&mut canvases);
    assert_eq!(
        canvases,
        vec![
            (Layer::hud(), 1),
            (Layer::hud(), 2),
            (Layer::menu(), 3),
            (Layer::overlay(), 0)
        ]
    );
}

#[test]
fn the_named_layers_are_in_the_order_they_read() {
    assert!(Layer::hud() < Layer::menu());
    assert!(Layer::menu() < Layer::overlay());
    assert!(Layer::overlay() < Layer::debug());
}

#[test]
fn sorting_is_stable_for_equal_layers_anywhere_in_the_list() {
    let mut canvases = vec![
        (Layer(5), 0),
        (Layer(-3), 1),
        (Layer(5), 2),
        (Layer(-3), 3),
        (Layer(0), 4),
    ];
    sort_by_layer(&mut canvases);
    assert_eq!(
        canvases,
        vec![(Layer(-3), 1), (Layer(-3), 3), (Layer(0), 4), (Layer(5), 0), (Layer(5), 2)]
    );
    let mut empty: Vec<(Layer, usize)> = Vec::new();
    sort_by_layer(&mut empty);
    assert!(empty.is_empty());
}

#[test]
fn linking_both_ways_creates_the_return_edge() {
    let mut links = NavLinks::default();
    links.link_both(handle(1), Direction::Right, handle(2));
    assert_eq!(links.get(handle(1), Direction::Right), Some(handle(2)));
    assert_eq!(links.get(handle(2), Direction::Left), Some(handle(1)));
}

/// A one-way link does not invent its reverse.
#[test]
fn a_one_way_link_stays_one_way() {
    let mut links = NavLinks::default();
    links.link(handle(1), Direction::Right, handle(2));
    assert_eq!(links.get(handle(2), Direction::Left), None);
}

/// Removing a widget forgets its links, in both roles.
#[test]
fn forgetting_a_widget_removes_links_pointing_at_it_too() {
    let mut links = NavLinks::default();
    links.link_both(handle(1), Direction::Right, handle(2));
    links.link_both(handle(2), Direction::Down, handle(3));
    links.forget(handle(2));
    assert_eq!(links.get(handle(1), Direction::Right), None);
    assert_eq!(links.get(handle(3), Direction::Up), None);
    assert!(links.is_empty());
}

#[test]
fn only_a_pointer_hovers() {
    assert!(InputSource::Pointer.has_hover());
    assert!(!InputSource::Touch.has_hover());
    assert!(!InputSource::Gamepad.has_hover());
    assert!(InputSource::Gamepad.navigates());
    assert!(!InputSource::Pointer.navigates());
}

#[test]
fn relinking_replaces_rather_than_adds() {
    let mut links = NavLinks::default();
    links.link(handle(1), Direction::Down, handle(2));
    links.link(handle(1), Direction::Down, handle(3));
    assert_eq!(links.get(handle(1), Direction::Down), Some(handle(3)));
    assert_eq!(links.len(), 1);
    links.link(handle(1), Direction::Up, handle(4));
    assert_eq!(links.len(), 2);
    assert!(!links.is_empty());
}

#[test]
fn a_stale_generation_is_a_different_widget() {
    let mut links = NavLinks::default();
    links.link(NodeHandle::new(1, 1), Direction::Left, handle(2));
    assert_eq!(links.get(NodeHandle::new(1, 2), Direction::Left), None);
}

#[test]
fn directions_are_their_own_opposites() {
    for direction in [Direction::Left, Direction::Right, Direction::Up, Direction::Down] {
        assert_eq!(direction.opposite().opposite(), direction);
        assert_ne!(direction.opposite(), direction);
        assert_eq!(direction.opposite().is_horizontal(), direction.is_horizontal());
    }
    assert!(Direction::Left.is_horizontal());
    assert!(!Direction::Up.is_horizontal());
    assert_eq!(InputSource::default(), InputSource::Pointer);
}

#[test]
fn an_authored_link_beats_every_score() {
    let mut links = NavLinks::default();
    links.link(handle(1), Direction::Down, handle(99));
    let candidates = vec![(handle(1), Some(0)), (handle(2), Some(-5))];
    assert_eq!(navigate_scored(handle(1), &candidates, Direction::Down, &links), Some(handle(99)));
}

#[test]
fn the_lowest_score_wins_and_the_earliest_of_equals() {
    let links = NavLinks::default();
    let candidates = vec![
        (handle(1), Some(-100)),
        (handle(2), Some(30)),
        (handle(3), None),
        (handle(4), Some(10)),
        (handle(5), Some(10)),
    ];
    assert_eq!(navigate_scored(handle(1), &candidates, Direction::Right, &links), Some(handle(4)));
    let nothing = vec![(handle(1), Some(0)), (handle(3), None)];
    assert_eq!(navigate_scored(handle(1), &nothing, Direction::Right, &links), None);
}

#[test]
fn first_focus_is_the_top_left_most() {
    let all = vec![
        (handle(1), (Some(50), Some(100))),
        (handle(2), (Some(10), Some(10))),
        (handle(3), (Some(10), Some(60))),
    ];
    assert_eq!(first_focus_keyed(&all), Some(handle(2)));
    assert_eq!(first_focus_keyed(&Vec::new()), None);
    let unordered = vec![(handle(1), (None, Some(0))), (handle(2), (Some(0), Some(0)))];
    assert_eq!(first_focus_keyed(&unordered), Some(handle(1)));
}
