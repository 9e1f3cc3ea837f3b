//! How a widget sits in the space its parent gives it.

use vstd::prelude::*;

verus! {

/// Where a widget sits across its slot.
#[derive(Debug, Clone, Copy, PartialEq, Eq, Structural)]
pub enum HorizontalAlignment {
    Stretch,
    Left,
    Center,
    Right,
}

impl Default for HorizontalAlignment {
    fn default() -> (a: Self)
        ensures
            a == HorizontalAlignment::Stretch,
    {
        HorizontalAlignment::Stretch
    }
}

/// Where a widget sits down its slot.
#[derive(Debug, Clone, Copy, PartialEq, Eq, Structural)]
pub enum VerticalAlignment {
    Stretch,
    Top,
    Center,
    Bottom,
}

impl Default for VerticalAlignment {
    fn default() -> (a: Self)
        ensures
            a == VerticalAlignment::Stretch,
    {
        VerticalAlignment::Stretch
    }
}

} // verus!
