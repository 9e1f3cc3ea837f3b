//! Which pipeline a draw command draws from.

use vstd::prelude::*;

verus! {

/// Which of the two streams a draw command draws from.
#[derive(Clone, Copy, Debug, PartialEq, Eq, Structural)]
pub enum Stream {
    /// The frozen fixed-size quad pipeline, which every older widget uses.
    Quad,
    /// The shaped pipeline: transforms, paths, strokes, masks, textures.
    Shaped,
}

impl Default for Stream {
    fn default() -> (s: Self)
        ensures
            s == Stream::Quad,
    {
        Stream::Quad
    }
}

} // verus!
