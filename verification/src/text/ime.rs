//! IME composition.
//!
//! On a Japanese, Chinese or Korean keyboard the characters typed are not
//! the characters meant: `nihon` becomes 日本 once the user confirms it. The
//! composition string is provisional: shown underlined, changeable on the
//! next keystroke, and never committed to the buffer. Only a commit is text.

use vstd::prelude::*;

verus! {

/// What the platform said about composition.
#[derive(Clone, Debug, PartialEq, Eq)]
pub enum ImeEvent {
    /// The IME is now active. Nothing is composed yet.
    Enabled,
    /// The provisional string and the byte range of the cursor within it.
    /// An empty string with no cursor means composition was cancelled.
    Preedit { text: String, cursor: Option<(usize, usize)> },
    /// The user confirmed. This text, and only this, becomes real.
    Commit(String),
    /// The IME is no longer active; any composition is abandoned.
    Disabled,
}

/// What the caller should do after feeding an event.
#[derive(Clone, Debug, PartialEq, Eq)]
pub enum ImeOutcome {
    /// Nothing changed.
    Ignored,
    /// The provisional string changed: redraw, do not commit.
    PreeditChanged,
    /// Insert this text at the caret. The only path to the buffer.
    Commit(String),
    /// Composition was abandoned: drop the provisional string.
    Cancelled,
}

/// The plain state of a composition.
pub struct ComposeState {
    /// The provisional string; empty when nothing is composing.
    pub text: Seq<char>,
    /// Byte range of the IME cursor within `text`.
    pub cursor: Option<(usize, usize)>,
    /// Whether the platform IME is active.
    pub enabled: bool,
}

/// A composition with no provisional text and no cursor.
pub open spec fn cleared(s: ComposeState, enabled: bool) -> ComposeState {
    ComposeState { text: Seq::empty(), cursor: None, enabled }
}

/// A field that has never composed and whose IME is off.
pub open spec fn idle() -> ComposeState {
    ComposeState { text: Seq::empty(), cursor: None, enabled: false }
}

/// The outcome of abandoning whatever was composing in `s`.
pub open spec fn cancel_outcome(s: ComposeState) -> ImeOutcome {
    if s.text.len() > 0 {
        ImeOutcome::Cancelled
    } else {
        ImeOutcome::Ignored
    }
}

/// The state and outcome after feeding `e` to a composition in state `s`.
pub open spec fn ime_step(s: ComposeState, e: ImeEvent) -> (ComposeState, ImeOutcome) {
    match e {
        ImeEvent::Enabled => (cleared(s, true), cancel_outcome(s)),
        ImeEvent::Preedit { text, cursor } => {
            if text@.len() == 0 && cursor is None {
                (cleared(s, s.enabled), cancel_outcome(s))
            } else if s.text == text@ && s.cursor == cursor {
                (s, ImeOutcome::Ignored)
            } else {
                (
                    ComposeState { text: text@, cursor, enabled: s.enabled },
                    ImeOutcome::PreeditChanged,
                )
            }
        },
        ImeEvent::Commit(text) => (
            cleared(s, s.enabled),
            if text@.len() == 0 {
                ImeOutcome::Cancelled
            } else {
                ImeOutcome::Commit(text)
            },
        ),
        ImeEvent::Disabled => (cleared(s, false), cancel_outcome(s)),
    }
}

/// In-flight composition state for one text field.
#[derive(Clone, Debug, PartialEq, Eq)]
pub struct Composition {
    text: String,
    cursor: Option<(usize, usize)>,
    enabled: bool,
}

impl View for Composition {
    type V = ComposeState;

    closed spec fn view(&self) -> ComposeState {
        ComposeState { text: self.text@, cursor: self.cursor, enabled: self.enabled }
    }
}

impl Default for Composition {
    fn default() -> (c: Self)
        ensures
            c@ == idle(),
    {
        Composition { text: String::new(), cursor: None, enabled: false }
    }
}

fn same_cursor(a: Option<(usize, usize)>, b: Option<(usize, usize)>) -> (r: bool)
    ensures
        r == (a == b),
{
    match (a, b) {
        (None, None) => true,
        (Some(x), Some(y)) => x.0 == y.0 && x.1 == y.1,
        _ => false,
    }
}

impl Composition {
    /// Nothing composing, IME not enabled.
    pub fn new() -> (c: Self)
        ensures
            c@ == idle(),
    {
        Composition { text: String::new(), cursor: None, enabled: false }
    }

    /// The provisional string. Draw it underlined; do not store it.
    pub fn preedit(&self) -> (s: &str)
        ensures
            s@ == self@.text,
    {
        self.text.as_str()
    }

    /// Byte range of the IME cursor within the preedit.
    pub fn cursor(&self) -> (c: Option<(usize, usize)>)
        ensures
            c == self@.cursor,
    {
        self.cursor
    }

    /// Whether something is currently being composed.
    ///
    /// A field with an active composition must not commit on Enter: the
    /// first Enter confirms the composition and belongs to the IME.
    pub fn is_composing(&self) -> (b: bool)
        ensures
            b == (self@.text.len() > 0),
    {
        !self.text.as_str().is_empty()
    }

    /// Whether the platform IME is enabled for this field.
    pub fn is_enabled(&self) -> (b: bool)
        ensures
            b == self@.enabled,
    {
        self.enabled
    }

    /// Feed a platform event.
    pub fn handle(&mut self, event: ImeEvent) -> (outcome: ImeOutcome)
        ensures
            (final(self)@, outcome) == ime_step(old(self)@, event),
    {
        match event {
            ImeEvent::Enabled => {
                self.enabled = true;
                // Enabling does not clear an existing composition on every
                // platform; starting clean is the only state correct on all.
                let was_empty = self.text.as_str().is_empty();
                self.text = String::new();
                self.cursor = None;
                if was_empty {
                    ImeOutcome::Ignored
                } else {
                    ImeOutcome::Cancelled
                }
            },
            ImeEvent::Preedit { text, cursor } => {
                if text.as_str().is_empty() && cursor.is_none() {
                    // The documented cancellation signal.
                    let was_composing = self.is_composing();
                    self.text = String::new();
                    self.cursor = None;
                    return if was_composing {
                        ImeOutcome::Cancelled
                    } else {
                        ImeOutcome::Ignored
                    };
                }
                if self.text == text && same_cursor(self.cursor, cursor) {
                    return ImeOutcome::Ignored;
                }
                self.text = text;
                self.cursor = cursor;
                ImeOutcome::PreeditChanged
            },
            ImeEvent::Commit(text) => {
                // The composition ends whether or not the commit is empty: a
                // stale preedit left here would be drawn over accepted text.
                self.text = String::new();
                self.cursor = None;
                if text.as_str().is_empty() {
                    ImeOutcome::Cancelled
                } else {
                    ImeOutcome::Commit(text)
                }
            },
            ImeEvent::Disabled => {
                self.enabled = false;
                let was_composing = self.is_composing();
                self.text = String::new();
                self.cursor = None;
                if was_composing {
                    ImeOutcome::Cancelled
                } else {
                    ImeOutcome::Ignored
                }
            },
        }
    }

    /// Whether a Return should be swallowed by the IME rather than submit.
    pub fn swallows_enter(&self) -> (b: bool)
        ensures
            b == (self@.text.len() > 0),
    {
        self.is_composing()
    }
}

/// Only a commit reaches the buffer, and it carries exactly the confirmed
/// text: no event hands out provisional text, and no outcome carries text
/// the platform did not commit.
pub proof fn lemma_only_a_commit_reaches_the_buffer(s: ComposeState, e: ImeEvent)
    ensures
        ime_step(s, e).1 matches ImeOutcome::Commit(t) ==> e == ImeEvent::Commit(t) && t@.len() > 0,
{
}

/// After a commit, a cancel, an enable or a disable nothing is composing, so
/// no stale preedit is drawn over the result and Enter submits again.
pub proof fn lemma_composition_ends_cleanly(s: ComposeState, e: ImeEvent)
    ensures
        !(e is Preedit) ==> ime_step(s, e).0.text.len() == 0 && ime_step(s, e).0.cursor is None,
        e matches ImeEvent::Preedit { text, cursor } && text@.len() == 0 && cursor is None
            ==> ime_step(s, e).0.text.len() == 0,
        e is Enabled ==> ime_step(s, e).0.enabled,
        e is Disabled ==> !ime_step(s, e).0.enabled,
{
}

/// A composition abandoned mid-way is cancelled rather than committed:
/// disabling while composing reports `Cancelled`, never `Commit`.
pub proof fn lemma_disabling_cancels_rather_than_commits(s: ComposeState)
    requires
        s.text.len() > 0,
    ensures
        ime_step(s, ImeEvent::Disabled).1 == ImeOutcome::Cancelled,
        ime_step(s, ImeEvent::Enabled).1 == ImeOutcome::Cancelled,
{
}

/// Feeding the same non-empty preedit twice redraws once: the second time
/// is ignored and changes nothing.
pub proof fn lemma_repeated_preedit_is_ignored(s: ComposeState, text: String, cursor: Option<(usize, usize)>)
    requires
        text@.len() > 0 || cursor is Some,
    ensures
        ({
            let e = ImeEvent::Preedit { text, cursor };
            let once = ime_step(s, e).0;
            &&& ime_step(once, e).1 == ImeOutcome::Ignored
            &&& ime_step(once, e).0 == once
            &&& once.text == text@
            &&& once.cursor == cursor
        }),
{
}

} // verus!
