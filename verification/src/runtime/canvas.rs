//! Canvas sorting layers.
//!
//! Higher layers draw later, so a tooltip sits above a menu sits above a HUD
//! without anyone computing a z by hand; canvases on one layer keep the order
//! they were registered in.

use vstd::prelude::*;

verus! {

broadcast use vstd::seq_lib::group_to_multiset_ensures;

/// A sorting layer. Higher draws later.
#[derive(Clone, Copy, Debug, PartialEq, Eq, PartialOrd, Ord)]
pub struct Layer(pub i32);

impl Default for Layer {
    fn default() -> (l: Self)
        ensures
            l.0 == 0,
    {
        Layer(0)
    }
}

impl Layer {
    /// Game content: a HUD, a health bar, a minimap.
    pub fn hud() -> (l: Layer)
        ensures
            l.0 == 0,
    {
        Layer(0)
    }

    /// Menus and dialogs drawn over the HUD.
    pub fn menu() -> (l: Layer)
        ensures
            l.0 == 100,
    {
        Layer(100)
    }

    /// Tooltips and drag ghosts, above everything a menu contains.
    pub fn overlay() -> (l: Layer)
        ensures
            l.0 == 200,
    {
        Layer(200)
    }

    /// Debug overlays, above everything else, because their job is to be
    /// visible over whatever is wrong.
    pub fn debug() -> (l: Layer)
        ensures
            l.0 == 1000,
    {
        Layer(1000)
    }
}

/// The draw order of two registered canvases: by layer, then by
/// registration index.
pub open spec fn draws_before(a: (Layer, usize), b: (Layer, usize)) -> bool {
    a.0.0 < b.0.0 || (a.0.0 == b.0.0 && a.1 <= b.1)
}

/// Whether `s` is in draw order.
pub open spec fn in_draw_order(s: Seq<(Layer, usize)>) -> bool {
    forall|i: int, j: int| 0 <= i < j < s.len() ==> draws_before(#[trigger] s[i], #[trigger] s[j])
}

fn draws_before_exec(a: (Layer, usize), b: (Layer, usize)) -> (r: bool)
    ensures
        r == draws_before(a, b),
{
    a.0.0 < b.0.0 || (a.0.0 == b.0.0 && a.1 <= b.1)
}

/// Sort `(layer, registration index)` pairs into draw order: by layer, ties
/// kept in registration order.
pub fn sort_by_layer(canvases: &mut Vec<(Layer, usize)>)
    ensures
        in_draw_order(final(canvases)@),
        final(canvases)@.to_multiset() == old(canvases)@.to_multiset(),
        final(canvases)@.len() == old(canvases)@.len(),
{
    let n = canvases.len();
    let mut i: usize = 1;
    if n == 0 {
        return;
    }
    while i < n
        invariant
            1 <= i <= n,
            n == canvases.len(),
            canvases@.to_multiset() == old(canvases)@.to_multiset(),
            forall|a: int, b: int|
                0 <= a < b < i ==> draws_before(#[trigger] canvases@[a], #[trigger] canvases@[b]),
        decreases n - i,
    {
        let mut j: usize = i;
        while j > 0 && !draws_before_exec(canvases[j - 1], canvases[j])
            invariant
                0 <= j <= i < n,
                n == canvases.len(),
                canvases@.to_multiset() == old(canvases)@.to_multiset(),
                forall|a: int, b: int|
                    0 <= a < b < j ==> draws_before(#[trigger] canvases@[a], #[trigger] canvases@[b]),
                forall|a: int, b: int|
                    j <= a < b <= i ==> draws_before(#[trigger] canvases@[a], #[trigger] canvases@[b]),
                forall|a: int, b: int|
                    0 <= a < j && j < b <= i ==> draws_before(
                        #[trigger] canvases@[a],
                        #[trigger] canvases@[b],
                    ),
            decreases j,
        {
            let ghost before = canvases@;
            let lower = canvases[j - 1];
            let upper = canvases[j];
            canvases.set(j - 1, upper);
            canvases.set(j, lower);
            proof {
                vstd::seq_lib::to_multiset_update(before, j - 1, upper);
                vstd::seq_lib::to_multiset_update(before.update(j - 1, upper), j as int, lower);
                assert(canvases@.to_multiset() =~= before.to_multiset());
            }
            j = j - 1;
        }
        proof {
            assert forall|a: int, b: int|
                0 <= a < b <= i implies draws_before(
                #[trigger] canvases@[a],
                #[trigger] canvases@[b],
            ) by {
                if a < j && b == j {
                    assert(draws_before(canvases@[a], canvases@[j - 1]) || a == j - 1);
                }
            }
        }
        i = i + 1;
    }
}

/// The draw order is fully determined by the canvases: any two orderings of
/// the same canvases that are both in draw order are the same sequence, so
/// sorting leaves no freedom for ties to move.
pub proof fn lemma_draw_order_is_unique(x: Seq<(Layer, usize)>, y: Seq<(Layer, usize)>)
    requires
        in_draw_order(x),
        in_draw_order(y),
        x.to_multiset() == y.to_multiset(),
    ensures
        x == y,
{
    let leq = |a: (Layer, usize), b: (Layer, usize)| draws_before(a, b);
    assert(vstd::relations::total_ordering(leq)) by {
        assert forall|a: (Layer, usize), b: (Layer, usize)|
            #[trigger] leq(a, b) && #[trigger] leq(b, a) implies a == b by {
            assert(a.0 == b.0);
        }
    }
    assert(vstd::relations::sorted_by(x, leq));
    assert(vstd::relations::sorted_by(y, leq));
    vstd::seq_lib::lemma_sorted_unique(x, y, leq);
}

} // verus!
