//! Handles that address widgets.

use crate::pool::Handle;
use vstd::prelude::*;

verus! {

/// What a [`NodeHandle`] points at: a widget of the retained tree.
#[derive(Debug)]
pub struct WidgetNode;

/// A handle to a widget.
pub type NodeHandle = Handle<WidgetNode>;

} // verus!
