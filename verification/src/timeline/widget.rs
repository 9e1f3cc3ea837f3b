//! Handles of the retained timeline editor's widgets.

use vstd::prelude::*;
use crate::message::NodeHandle;

verus! {

/// The timeline editor and the curve editor embedded in it.
#[derive(Clone, Copy, Debug)]
pub struct TimelineEditorHandles {
    pub editor: NodeHandle,
    pub curve_editor: NodeHandle,
}

} // verus!
