//! Keyboard focus over the retained widget tree: the modal scope that traps
//! it, arrow traversal between focus stops, ownership of the one gesture in
//! flight, and the routing of window events to widgets, with the rules for
//! which events the interface consumes and which pass to the scene.
//!
//! The tree itself answers the questions these decisions need (which node
//! lies under the cursor, whether a node lies under the modal root, whether
//! the control that opened a modal is still shown, whether the focused
//! widget takes text) and hands the answers in.

use vstd::prelude::*;
use crate::message::NodeHandle;
use crate::pool::INVALID_GENERATION;
use vstd::std_specs::iter::IteratorSpec;

verus! {

/// Ownership record for the one modal-feeling gesture currently in flight.
/// Gesture-specific restoration data stays in the owning control.
#[derive(Debug, Clone, Copy, PartialEq, Eq)]
pub struct GestureToken {
    pub owner: NodeHandle,
}

/// A modal focus scope: its root, and the control focused when it opened.
#[derive(Debug, Clone, Copy)]
pub struct ModalFocus {
    pub root: NodeHandle,
    pub return_to: NodeHandle,
}

/// The focus as a value: the focused node, and the modal scope in force as
/// its root and the node to return to.
pub struct FocusView {
    pub focused: (u32, u32),
    pub modal: Option<((u32, u32), (u32, u32))>,
}

/// Keyboard focus and the modal scope that may trap it.
#[derive(Debug, Clone, Copy)]
pub struct FocusScope {
    focused: NodeHandle,
    modal: Option<ModalFocus>,
}

impl View for FocusScope {
    type V = FocusView;

    closed spec fn view(&self) -> FocusView {
        FocusView {
            focused: self.focused@,
            modal: match self.modal {
                Some(m) => Some((m.root@, m.return_to@)),
                None => None,
            },
        }
    }
}

/// The handle that names nothing, as a value.
pub open spec fn no_node() -> (u32, u32) {
    (0u32, INVALID_GENERATION)
}

/// Whether a handle value names a node.
pub open spec fn names_a_node(h: (u32, u32)) -> bool {
    h.1 != INVALID_GENERATION
}

/// The focus after asking to focus `handle`: inside an active modal, only a
/// node under its root can take focus.
pub open spec fn focus_requested(v: FocusView, handle: (u32, u32), under_modal_root: bool) -> FocusView {
    if v.modal is Some && (!names_a_node(handle) || !under_modal_root) {
        v
    } else {
        FocusView { focused: handle, ..v }
    }
}

/// The focus after a modal opens at `root` with `initial` focused; the
/// control focused before is remembered.
pub open spec fn modal_entered(v: FocusView, root: (u32, u32), initial: (u32, u32)) -> FocusView {
    FocusView { focused: initial, modal: Some((root, v.focused)) }
}

/// The focus after the modal at `root` closes: focus goes back to the
/// control that opened it if that control is still shown, else nowhere. A
/// request to close another scope changes nothing.
pub open spec fn modal_exited(v: FocusView, root: (u32, u32), invoker_shown: bool) -> FocusView {
    match v.modal {
        Some((r, back)) if r == root => FocusView {
            focused: if names_a_node(back) && invoker_shown { back } else { no_node() },
            modal: None,
        },
        _ => v,
    }
}

impl FocusScope {
    /// Nothing focused and no modal scope.
    pub fn new() -> (s: Self)
        ensures
            s@.focused == no_node(),
            s@.modal is None,
    {
        FocusScope { focused: NodeHandle::none(), modal: None }
    }

    /// The focused node.
    pub fn focused(&self) -> (h: NodeHandle)
        ensures
            h@ == self@.focused,
    {
        self.focused
    }

    /// The root of the modal scope in force.
    pub fn modal_root(&self) -> (r: Option<NodeHandle>)
        ensures
            match (r, self@.modal) {
                (Some(h), Some(m)) => h@ == m.0,
                (None, None) => true,
                _ => false,
            },
    {
        match self.modal {
            Some(m) => Some(m.root),
            None => None,
        }
    }

    /// The control focus returns to when the modal in force closes.
    pub fn invoker(&self) -> (r: Option<NodeHandle>)
        ensures
            match (r, self@.modal) {
                (Some(h), Some(m)) => h@ == m.1,
                (None, None) => true,
                _ => false,
            },
    {
        match self.modal {
            Some(m) => Some(m.return_to),
            None => None,
        }
    }

    /// Focus `handle`, unless a modal is in force and `handle` is not under
    /// its root (`under_modal_root` is the tree's answer).
    pub fn set_focus(&mut self, handle: NodeHandle, under_modal_root: bool)
        ensures
            final(self)@ == focus_requested(old(self)@, handle@, under_modal_root),
    {
        if self.modal.is_some() && (handle.is_none() || !under_modal_root) {
            return;
        }
        self.focused = handle;
    }

    /// Enter a modal focus scope at `root`, focusing `initial_focus` and
    /// remembering the invoking control.
    pub fn enter_modal(&mut self, root: NodeHandle, initial_focus: NodeHandle)
        ensures
            final(self)@ == modal_entered(old(self)@, root@, initial_focus@),
    {
        let return_to = self.focused;
        self.modal = Some(ModalFocus { root, return_to });
        self.focused = initial_focus;
    }

    /// Leave the modal scope at `root` and return focus to the control which
    /// opened it, if it is still shown (`invoker_shown` is the tree's
    /// answer); the new focus is returned.
    pub fn exit_modal(&mut self, root: NodeHandle, invoker_shown: bool) -> (focus: NodeHandle)
        ensures
            final(self)@ == modal_exited(old(self)@, root@, invoker_shown),
            focus@ == final(self)@.focused,
    {
        let modal = match self.modal {
            Some(m) => {
                if m.root == root {
                    m
                } else {
                    return self.focused;
                }
            },
            None => {
                return self.focused;
            },
        };
        self.modal = None;
        let target = if modal.return_to.is_some() && invoker_shown {
            modal.return_to
        } else {
            NodeHandle::none()
        };
        self.focused = target;
        target
    }
}

impl Default for FocusScope {
    fn default() -> (s: Self)
        ensures
            s@.focused == no_node(),
            s@.modal is None,
    {
        FocusScope::new()
    }
}

/// A key that moves focus between the stops of a region.
#[derive(Debug, Clone, Copy, PartialEq, Eq, Structural)]
pub enum TraverseKey {
    ArrowDown,
    ArrowUp,
    Home,
    End,
}

/// The stop arrow traversal lands on among `count` stops, from the stop at
/// `current` if the focus is on one: down and up step and stop at the ends,
/// home and end jump; with no focused stop, down enters at the first and up
/// at the last.
pub open spec fn traversal_target(count: nat, current: Option<nat>, key: TraverseKey) -> nat {
    match key {
        TraverseKey::ArrowDown => match current {
            Some(i) => if i + 1 < count { i + 1 } else { (count - 1) as nat },
            None => 0,
        },
        TraverseKey::ArrowUp => match current {
            Some(i) => if i == 0 { 0 } else { (i - 1) as nat },
            None => (count - 1) as nat,
        },
        TraverseKey::Home => 0,
        TraverseKey::End => (count - 1) as nat,
    }
}

/// The index of the focus stop to move to among `count` stops; `None` when
/// there are none, and traversal declines.
pub fn traverse_stop(count: usize, current: Option<usize>, key: TraverseKey) -> (r: Option<usize>)
    requires
        current matches Some(i) ==> i < count,
    ensures
        r is None <==> count == 0,
        r matches Some(t) ==> t < count && t == traversal_target(
            count as nat,
            match current {
                Some(i) => Some(i as nat),
                None => None,
            },
            key,
        ),
{
    if count == 0 {
        return None;
    }
    let target = match key {
        TraverseKey::ArrowDown => match current {
            Some(i) => if i + 1 < count { i + 1 } else { count - 1 },
            None => 0,
        },
        TraverseKey::ArrowUp => match current {
            Some(i) => if i == 0 { 0 } else { i - 1 },
            None => count - 1,
        },
        TraverseKey::Home => 0,
        TraverseKey::End => count - 1,
    };
    Some(target)
}

/// Focus cannot escape an active modal: a request for a node outside its
/// root leaves the focus where it was.
pub proof fn lemma_modal_traps_focus(v: FocusView, handle: (u32, u32))
    requires
        v.modal is Some,
    ensures
        focus_requested(v, handle, false) == v,
{
}

/// Opening a modal and closing it again returns focus to the control that
/// had it, while that control is still shown, and leaves no scope behind.
pub proof fn lemma_modal_returns_to_its_invoker(v: FocusView, root: (u32, u32), inside: (u32, u32))
    requires
        names_a_node(v.focused),
    ensures
        modal_exited(modal_entered(v, root, inside), root, true) == (FocusView { focused: v.focused, modal: None }),
        modal_exited(modal_entered(v, root, inside), root, false) == (FocusView { focused: no_node(), modal: None }),
{
}

/// Traversal always lands on a stop, and a step down from any stop but the
/// last is undone by a step up.
pub proof fn lemma_traversal_stays_on_the_stops(count: nat, current: Option<nat>, key: TraverseKey)
    requires
        count > 0,
        current matches Some(i) ==> i < count,
    ensures
        traversal_target(count, current, key) < count,
        current is Some && current->0 + 1 < count ==> traversal_target(
            count,
            Some(traversal_target(count, current, TraverseKey::ArrowDown)),
            TraverseKey::ArrowUp,
        ) == current->0,
{
}

/// The modifier keys held down.
#[derive(Debug, Clone, Copy, PartialEq, Eq, Structural)]
pub struct Modifiers {
    pub ctrl: bool,
    pub shift: bool,
    pub alt: bool,
    pub logo: bool,
}

/// A mouse button.
#[derive(Debug, Clone, Copy, PartialEq, Eq, Structural)]
pub enum PointerButton {
    Left,
    Right,
    Middle,
    Back,
    Forward,
    Other(u16),
}

/// A window event as routing sees it. Positions, scroll deltas and the hit
/// test stay with the caller, which hands in the node under the cursor;
/// `K` is the physical key code, carried through untouched.
#[derive(Debug, Clone)]
pub enum OsInput<K> {
    ModifiersChanged(Modifiers),
    CursorMoved,
    MouseButton { pressed: bool, button: PointerButton },
    MouseWheel,
    Key { code: Option<K>, pressed: bool, text: Option<String> },
    Other,
}

/// What a routed message tells its widget. The caller adds the cursor
/// position to the pointer messages and the scroll delta to the wheel.
#[derive(Debug, Clone, PartialEq, Eq)]
pub enum RoutedKind<K> {
    MouseMove(Modifiers),
    MouseLeave,
    MouseEnter,
    Unfocus,
    Focus,
    MouseDown(PointerButton, Modifiers),
    MouseUp(PointerButton, Modifiers),
    MouseWheel(Modifiers),
    KeyDown(K, Modifiers),
    KeyUp(K, Modifiers),
    Text(String),
}

/// A message for one widget.
#[derive(Debug, Clone, PartialEq, Eq)]
pub struct Routed<K> {
    pub target: NodeHandle,
    pub kind: RoutedKind<K>,
}

/// The pointer and keyboard state that routing keeps between events: the
/// focus and its modal scope, the widget that captured the pointer on a
/// press, the widget under the hover, and the modifiers held.
#[derive(Debug, Clone, Copy)]
pub struct PointerRouting {
    pub focus: FocusScope,
    pub captured: NodeHandle,
    pub hovered: NodeHandle,
    pub modifiers: Modifiers,
}

/// [`PointerRouting`] as a value.
pub struct RoutingView {
    pub focus: FocusView,
    pub captured: (u32, u32),
    pub hovered: (u32, u32),
    pub modifiers: Modifiers,
}

impl View for PointerRouting {
    type V = RoutingView;

    open spec fn view(&self) -> RoutingView {
        RoutingView {
            focus: self.focus@,
            captured: self.captured@,
            hovered: self.hovered@,
            modifiers: self.modifiers,
        }
    }
}

/// Whether the pointer is over the scene rather than over the interface:
/// nothing was hit, or the hit is the viewport itself.
pub open spec fn over_viewport(hit: Option<(u32, u32)>, viewport: (u32, u32)) -> bool {
    match hit {
        Some(h) => !names_a_node(h) || h == viewport,
        None => true,
    }
}

/// The node hit, or the handle naming nothing.
pub open spec fn hit_node(hit: Option<(u32, u32)>) -> (u32, u32) {
    match hit {
        Some(h) => h,
        None => no_node(),
    }
}

/// Whether a character is a control code (general category Cc).
pub open spec fn is_control_char(c: char) -> bool {
    (c as u32) <= 0x1F || (0x7F <= (c as u32) && (c as u32) <= 0x9F)
}

/// Whether typed text holds anything to insert: some character that is not
/// a control code.
pub open spec fn carries_text(t: Seq<char>) -> bool {
    exists|i: int| 0 <= i < t.len() && !is_control_char(#[trigger] t[i])
}

/// Routed messages as (target, message) values.
pub open spec fn routed_view<K>(msgs: Seq<Routed<K>>) -> Seq<((u32, u32), RoutedKind<K>)> {
    msgs.map_values(|m: Routed<K>| (m.target@, m.kind))
}

/// One window event routed: the state after it, whether the interface
/// consumed it, and the messages sent. `hit` is the node under the cursor,
/// `under_modal_root` whether that node lies under the modal root in force,
/// and `text_focus` whether the focused node takes text input.
///
/// A cursor move is never consumed: it feeds the pointer capture and the
/// hover. A button press or release is consumed only over a widget other
/// than the viewport; the right button over the viewport is left alone, and
/// a press elsewhere over the viewport drops the focus. A press focuses and
/// captures the widget, unless an active modal keeps it out (then it is
/// swallowed); a release goes to the widget that captured the press. A key
/// is consumed only while a text-input widget has focus.
pub open spec fn spec_route<K>(
    s: RoutingView,
    input: OsInput<K>,
    hit: Option<(u32, u32)>,
    viewport: (u32, u32),
    under_modal_root: bool,
    text_focus: bool,
) -> (RoutingView, bool, Seq<((u32, u32), RoutedKind<K>)>) {
    match input {
        OsInput::ModifiersChanged(m) => (RoutingView { modifiers: m, ..s }, false, Seq::empty()),
        OsInput::CursorMoved => {
            let moved = if names_a_node(s.captured) {
                seq![(s.captured, RoutedKind::MouseMove(s.modifiers))]
            } else {
                Seq::empty()
            };
            let new_hover = if over_viewport(hit, viewport) {
                no_node()
            } else {
                hit_node(hit)
            };
            if new_hover == s.hovered {
                (s, false, moved)
            } else {
                let left = if names_a_node(s.hovered) {
                    seq![(s.hovered, RoutedKind::MouseLeave)]
                } else {
                    Seq::empty()
                };
                let entered = if names_a_node(new_hover) {
                    seq![(new_hover, RoutedKind::MouseEnter)]
                } else {
                    Seq::empty()
                };
                (RoutingView { hovered: new_hover, ..s }, false, moved + left + entered)
            }
        },
        OsInput::MouseButton { pressed, button } => {
            if over_viewport(hit, viewport) {
                if button == PointerButton::Right || !pressed || !names_a_node(s.focus.focused) {
                    (s, false, Seq::empty())
                } else {
                    (
                        RoutingView { focus: FocusView { focused: no_node(), ..s.focus }, ..s },
                        false,
                        seq![(s.focus.focused, RoutedKind::Unfocus)],
                    )
                }
            } else {
                let h = hit_node(hit);
                if pressed {
                    if s.focus.modal is Some && !under_modal_root {
                        (s, true, Seq::empty())
                    } else {
                        let unfocus = if s.focus.focused != h && names_a_node(s.focus.focused) {
                            seq![(s.focus.focused, RoutedKind::Unfocus)]
                        } else {
                            Seq::empty()
                        };
                        (
                            RoutingView {
                                focus: focus_requested(s.focus, h, under_modal_root),
                                captured: h,
                                ..s
                            },
                            true,
                            unfocus + seq![
                                (h, RoutedKind::Focus),
                                (h, RoutedKind::MouseDown(button, s.modifiers)),
                            ],
                        )
                    }
                } else {
                    let target = if names_a_node(s.captured) {
                        s.captured
                    } else {
                        h
                    };
                    (
                        RoutingView { captured: no_node(), ..s },
                        true,
                        seq![(target, RoutedKind::MouseUp(button, s.modifiers))],
                    )
                }
            }
        },
        OsInput::MouseWheel => {
            if over_viewport(hit, viewport) {
                (s, false, Seq::empty())
            } else {
                (s, true, seq![(hit_node(hit), RoutedKind::MouseWheel(s.modifiers))])
            }
        },
        OsInput::Key { code, pressed, text } => {
            if !text_focus || !names_a_node(s.focus.focused) {
                (s, false, Seq::empty())
            } else {
                let f = s.focus.focused;
                let keys = match code {
                    Some(k) => if pressed {
                        seq![(f, RoutedKind::KeyDown(k, s.modifiers))]
                    } else {
                        seq![(f, RoutedKind::KeyUp(k, s.modifiers))]
                    },
                    None => Seq::empty(),
                };
                let typed = match text {
                    Some(t) => if pressed && carries_text(t@) {
                        seq![(f, RoutedKind::Text(t))]
                    } else {
                        Seq::empty()
                    },
                    None => Seq::empty(),
                };
                (s, true, keys + typed)
            }
        },
        OsInput::Other => (s, false, Seq::empty()),
    }
}

fn is_control(c: char) -> (b: bool)
    ensures
        b == is_control_char(c),
{
    let u = c as u32;
    u <= 0x1F || (0x7F <= u && u <= 0x9F)
}

/// Whether typed text holds a character that is not a control code.
pub fn text_is_insertable(text: &str) -> (b: bool)
    ensures
        b == carries_text(text@),
{
    broadcast use vstd::string::group_string_axioms;

    let mut chars = text.chars();
    let ghost mut seen: int = 0;
    assert(text@.skip(0) =~= text@);
    loop
        invariant
            0 <= seen <= text@.len(),
            chars.remaining() == text@.skip(seen),
            forall|j: int| 0 <= j < seen ==> is_control_char(#[trigger] text@[j]),
        decreases text@.len() - seen,
    {
        match chars.next() {
            Some(ch) => {
                proof {
                    assert(ch == text@[seen]);
                    assert(text@.skip(seen).drop_first() =~= text@.skip(seen + 1));
                }
                if !is_control(ch) {
                    return true;
                }
                proof {
                    seen = seen + 1;
                }
            },
            None => {
                assert(seen == text@.len());
                return false;
            },
        }
    }
}

impl PointerRouting {
    /// Nothing focused, captured or hovered, and no modifier held.
    pub fn new() -> (r: Self)
        ensures
            r@.focus.focused == no_node(),
            r@.focus.modal is None,
            r@.captured == no_node(),
            r@.hovered == no_node(),
            r@.modifiers == (Modifiers { ctrl: false, shift: false, alt: false, logo: false }),
    {
        PointerRouting {
            focus: FocusScope::new(),
            captured: NodeHandle::none(),
            hovered: NodeHandle::none(),
            modifiers: Modifiers { ctrl: false, shift: false, alt: false, logo: false },
        }
    }
}

/// Whether `msgs` tell a change of hover from `before` to `after`: the
/// widget left is sent `MouseLeave` and the widget entered `MouseEnter`.
pub open spec fn hover_told<K>(before: (u32, u32), after: (u32, u32), msgs: Seq<Routed<K>>) -> bool {
    &&& after != before && names_a_node(before) ==> exists|k: int|
        0 <= k < msgs.len() && (#[trigger] msgs[k]).target@ == before && msgs[k].kind is MouseLeave
    &&& after != before && names_a_node(after) ==> exists|k: int|
        0 <= k < msgs.len() && (#[trigger] msgs[k]).target@ == after && msgs[k].kind is MouseEnter
}

/// Route one window event: update `state`, and return whether the interface
/// consumed the event (the caller does not forward a consumed event to the
/// scene) with the messages for the widgets, in order.
pub fn route_os_input<K>(
    state: &mut PointerRouting,
    input: OsInput<K>,
    hit: Option<NodeHandle>,
    viewport: NodeHandle,
    under_modal_root: bool,
    text_focus: bool,
) -> (r: (bool, Vec<Routed<K>>))
    ensures
        ({
            let hv = match hit {
                Some(h) => Some(h@),
                None => None,
            };
            let expected = spec_route(old(state)@, input, hv, viewport@, under_modal_root, text_focus);
            &&& final(state)@ == expected.0
            &&& r.0 == expected.1
            &&& routed_view(r.1@) == expected.2
            &&& (input is CursorMoved ==> !r.0)
            &&& (input is MouseButton && over_viewport(hv, viewport@) ==> !r.0)
            &&& (input is Key ==> (r.0 <==> text_focus && names_a_node(old(state)@.focus.focused)))
            &&& (input is CursorMoved ==> final(state)@.hovered == if over_viewport(hv, viewport@) {
                no_node()
            } else {
                hit_node(hv)
            })
            &&& (input is CursorMoved ==> hover_told(old(state)@.hovered, final(state)@.hovered, r.1@))
        }),
{
    let ghost hv = match hit {
        Some(h) => Some(h@),
        None => None,
    };
    let ghost s0 = state@;
    let over = match hit {
        Some(h) => h.is_none() || h == viewport,
        None => true,
    };
    let h = match hit {
        Some(h) => h,
        None => NodeHandle::none(),
    };
    assert(over == over_viewport(hv, viewport@));
    assert(h@ == hit_node(hv));
    let mut out: Vec<Routed<K>> = Vec::new();
    match input {
        OsInput::ModifiersChanged(m) => {
            state.modifiers = m;
            assert(routed_view(out@) =~= Seq::empty());
            (false, out)
        },
        OsInput::CursorMoved => {
            if state.captured.is_some() {
                out.push(Routed { target: state.captured, kind: RoutedKind::MouseMove(state.modifiers) });
            }
            let new_hover = if over {
                NodeHandle::none()
            } else {
                h
            };
            if new_hover != state.hovered {
                if state.hovered.is_some() {
                    out.push(Routed { target: state.hovered, kind: RoutedKind::MouseLeave });
                }
                if new_hover.is_some() {
                    out.push(Routed { target: new_hover, kind: RoutedKind::MouseEnter });
                }
                state.hovered = new_hover;
            }
            assert(routed_view(out@) =~= spec_route(s0, OsInput::<K>::CursorMoved, hv, viewport@, under_modal_root, text_focus).2);
            proof {
                lemma_hover_leaves_then_enters::<K>(s0, hv, viewport@, under_modal_root, text_focus);
                let rv = routed_view(out@);
                if state.hovered@ != s0.hovered && names_a_node(s0.hovered) {
                    let k = choose|k: int| 0 <= k < rv.len() && rv[k] == (s0.hovered, RoutedKind::<K>::MouseLeave);
                    assert(out@[k].target@ == s0.hovered && out@[k].kind is MouseLeave);
                }
                if state.hovered@ != s0.hovered && names_a_node(state.hovered@) {
                    let k = choose|k: int| 0 <= k < rv.len() && rv[k] == (state.hovered@, RoutedKind::<K>::MouseEnter);
                    assert(out@[k].target@ == state.hovered@ && out@[k].kind is MouseEnter);
                }
                assert(hover_told(s0.hovered, state.hovered@, out@));
            }
            (false, out)
        },
        OsInput::MouseButton { pressed, button } => {
            if over {
                if button != PointerButton::Right && pressed && state.focus.focused.is_some() {
                    out.push(Routed { target: state.focus.focused, kind: RoutedKind::Unfocus });
                    state.focus.focused = NodeHandle::none();
                }
                assert(routed_view(out@) =~= spec_route(s0, OsInput::<K>::MouseButton { pressed, button }, hv, viewport@, under_modal_root, text_focus).2);
                return (false, out);
            }
            if pressed {
                if state.focus.modal.is_some() && !under_modal_root {
                    assert(routed_view(out@) =~= Seq::empty());
                    return (true, out);
                }
                let old_focus = state.focus.focused;
                if old_focus != h && old_focus.is_some() {
                    out.push(Routed { target: old_focus, kind: RoutedKind::Unfocus });
                }
                let mut focus = state.focus;
                focus.set_focus(h, under_modal_root);
                state.focus = focus;
                out.push(Routed { target: h, kind: RoutedKind::Focus });
                state.captured = h;
                out.push(Routed { target: h, kind: RoutedKind::MouseDown(button, state.modifiers) });
            } else {
                let target = if state.captured.is_some() {
                    state.captured
                } else {
                    h
                };
                state.captured = NodeHandle::none();
                out.push(Routed { target, kind: RoutedKind::MouseUp(button, state.modifiers) });
            }
            assert(routed_view(out@) =~= spec_route(s0, OsInput::<K>::MouseButton { pressed, button }, hv, viewport@, under_modal_root, text_focus).2);
            (true, out)
        },
        OsInput::MouseWheel => {
            if over {
                assert(routed_view(out@) =~= Seq::empty());
                return (false, out);
            }
            out.push(Routed { target: h, kind: RoutedKind::MouseWheel(state.modifiers) });
            assert(routed_view(out@) =~= seq![(h@, RoutedKind::<K>::MouseWheel(s0.modifiers))]);
            (true, out)
        },
        OsInput::Key { code, pressed, text } => {
            if !text_focus || state.focus.focused.is_none() {
                assert(routed_view(out@) =~= Seq::empty());
                return (false, out);
            }
            let f = state.focus.focused;
            let ghost code_v = code;
            let ghost text_v = text;
            match code {
                Some(k) => {
                    if pressed {
                        out.push(Routed { target: f, kind: RoutedKind::KeyDown(k, state.modifiers) });
                    } else {
                        out.push(Routed { target: f, kind: RoutedKind::KeyUp(k, state.modifiers) });
                    }
                },
                None => {},
            }
            match text {
                Some(t) => {
                    if pressed && text_is_insertable(t.as_str()) {
                        out.push(Routed { target: f, kind: RoutedKind::Text(t) });
                    }
                },
                None => {},
            }
            assert(routed_view(out@) =~= spec_route(s0, OsInput::Key { code: code_v, pressed, text: text_v }, hv, viewport@, under_modal_root, text_focus).2);
            (true, out)
        },
        OsInput::Other => {
            assert(routed_view(out@) =~= Seq::empty());
            (false, out)
        },
    }
}

/// A press on a widget captures the pointer: the release that follows goes
/// to that widget wherever over the interface it happens, and frees the
/// capture.
pub proof fn lemma_release_goes_to_the_pressed_widget<K>(
    s: RoutingView,
    pressed_with: PointerButton,
    released_with: PointerButton,
    hit: Option<(u32, u32)>,
    release_hit: Option<(u32, u32)>,
    viewport: (u32, u32),
    under_modal_root: bool,
    release_under_modal_root: bool,
    text_focus: bool,
)
    requires
        !over_viewport(hit, viewport),
        !over_viewport(release_hit, viewport),
        s.focus.modal is None || under_modal_root,
    ensures
        ({
            let press = spec_route(
                s,
                OsInput::<K>::MouseButton { pressed: true, button: pressed_with },
                hit,
                viewport,
                under_modal_root,
                text_focus,
            );
            let release = spec_route(
                press.0,
                OsInput::<K>::MouseButton { pressed: false, button: released_with },
                release_hit,
                viewport,
                release_under_modal_root,
                text_focus,
            );
            &&& press.1 && release.1
            &&& press.2.last() == (hit_node(hit), RoutedKind::<K>::MouseDown(pressed_with, s.modifiers))
            &&& release.2 == seq![(hit_node(hit), RoutedKind::<K>::MouseUp(released_with, s.modifiers))]
            &&& release.0.captured == no_node()
        }),
{
}

/// The right button over the scene belongs to the camera: the interface
/// neither consumes it nor changes anything.
pub proof fn lemma_right_button_passes_to_the_scene<K>(
    s: RoutingView,
    pressed: bool,
    hit: Option<(u32, u32)>,
    viewport: (u32, u32),
    under_modal_root: bool,
    text_focus: bool,
)
    requires
        over_viewport(hit, viewport),
    ensures
        spec_route(
            s,
            OsInput::<K>::MouseButton { pressed, button: PointerButton::Right },
            hit,
            viewport,
            under_modal_root,
            text_focus,
        ) == (s, false, Seq::<((u32, u32), RoutedKind<K>)>::empty()),
{
}

/// While a modal is in force, a press on a widget outside it is swallowed:
/// consumed, with no message and no change of focus or capture.
pub proof fn lemma_modal_swallows_outside_presses<K>(
    s: RoutingView,
    button: PointerButton,
    hit: Option<(u32, u32)>,
    viewport: (u32, u32),
    text_focus: bool,
)
    requires
        s.focus.modal is Some,
        !over_viewport(hit, viewport),
    ensures
        spec_route(s, OsInput::<K>::MouseButton { pressed: true, button }, hit, viewport, false, text_focus)
            == (s, true, Seq::<((u32, u32), RoutedKind<K>)>::empty()),
{
}

/// A cursor move is never consumed and moves the hover to the widget under
/// the cursor (to nothing over the viewport). When the hover changes, the
/// widget it leaves is told so, whatever it moves to, and the widget it
/// moves to is told it was entered; when it does not change, neither is
/// sent.
pub proof fn lemma_hover_leaves_then_enters<K>(
    s: RoutingView,
    hit: Option<(u32, u32)>,
    viewport: (u32, u32),
    under_modal_root: bool,
    text_focus: bool,
)
    ensures
        ({
            let r = spec_route(s, OsInput::<K>::CursorMoved, hit, viewport, under_modal_root, text_focus);
            let new_hover = if hit is None || hit == Some(viewport) || !names_a_node(hit->0) {
                no_node()
            } else {
                hit->0
            };
            &&& !r.1
            &&& r.0.hovered == new_hover
            &&& r.0.focus == s.focus && r.0.captured == s.captured
            &&& new_hover != s.hovered && names_a_node(s.hovered) ==> r.2.contains((s.hovered, RoutedKind::<K>::MouseLeave))
            &&& new_hover != s.hovered && names_a_node(new_hover) ==> r.2.contains((new_hover, RoutedKind::<K>::MouseEnter))
            &&& new_hover == s.hovered ==> forall|k: int|
                0 <= k < r.2.len() ==> !((#[trigger] r.2[k]).1 is MouseLeave) && !(r.2[k].1 is MouseEnter)
        }),
{
    let r = spec_route(s, OsInput::<K>::CursorMoved, hit, viewport, under_modal_root, text_focus);
    let moved: Seq<((u32, u32), RoutedKind<K>)> = if names_a_node(s.captured) {
        seq![(s.captured, RoutedKind::MouseMove(s.modifiers))]
    } else {
        Seq::empty()
    };
    let new_hover = if over_viewport(hit, viewport) {
        no_node()
    } else {
        hit_node(hit)
    };
    if new_hover != s.hovered {
        let left: Seq<((u32, u32), RoutedKind<K>)> = if names_a_node(s.hovered) {
            seq![(s.hovered, RoutedKind::MouseLeave)]
        } else {
            Seq::empty()
        };
        let entered: Seq<((u32, u32), RoutedKind<K>)> = if names_a_node(new_hover) {
            seq![(new_hover, RoutedKind::MouseEnter)]
        } else {
            Seq::empty()
        };
        assert(r.2 == moved + left + entered);
        if names_a_node(s.hovered) {
            assert(r.2[moved.len() as int] == (s.hovered, RoutedKind::<K>::MouseLeave));
        }
        if names_a_node(new_hover) {
            assert(r.2[(moved.len() + left.len()) as int] == (new_hover, RoutedKind::<K>::MouseEnter));
        }
    }
}

} // verus!
