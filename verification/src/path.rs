//! How a stroke turns corners and ends.
//!
//! The geometry of paths and strokes works in floating point and stays
//! with the application.

use vstd::prelude::*;

verus! {

/// How a stroke turns a corner.
#[derive(Clone, Copy, Debug, PartialEq, Eq, Structural)]
pub enum Join {
    /// Extend both edges to their intersection, falling back to a bevel
    /// past the miter limit.
    Miter,
    /// A fan of triangles around the joint.
    Round,
    /// One triangle across the gap.
    Bevel,
}

impl Default for Join {
    fn default() -> (j: Self)
        ensures
            j == Join::Miter,
    {
        Join::Miter
    }
}

/// How a stroke ends.
#[derive(Clone, Copy, Debug, PartialEq, Eq, Structural)]
pub enum Cap {
    /// Stop at the endpoint.
    Butt,
    /// A half-disc past the endpoint.
    Round,
    /// A half-width square past the endpoint.
    Square,
}

impl Default for Cap {
    fn default() -> (c: Self)
        ensures
            c == Cap::Butt,
    {
        Cap::Butt
    }
}

} // verus!
