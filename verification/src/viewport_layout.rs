//! How the editor divides its viewport region into views.
//!
//! The choice of arrangement is a menu item with a label and a cycle order;
//! what each resulting view looks at is the renderer's business. The seam
//! between the two is a list of rectangles.

use vstd::prelude::*;

verus! {

/// A rectangle of the swapchain, in physical pixels: `(x, y, w, h)`.
pub type ViewRect = (u32, u32, u32, u32);

/// How the viewport region is divided.
#[derive(Clone, Copy, Debug, PartialEq, Eq)]
pub enum ViewportLayout {
    Single,
    /// Two side by side.
    SplitVertical,
    /// Two stacked.
    SplitHorizontal,
    /// The classic four-up.
    Quad,
}

/// The tiles of a layout over a region, as plain integers.
///
/// Halves add back up to the whole: the left / top half takes `w / 2`, the
/// other `w - w / 2`, so an odd size loses no column to a seam.
pub open spec fn spec_tiles(layout: ViewportLayout, rect: ViewRect) -> Seq<ViewRect> {
    let (x, y, w, h) = rect;
    let lw = (w / 2) as u32;
    let rw = (w - w / 2) as u32;
    let th = (h / 2) as u32;
    let bh = (h - h / 2) as u32;
    match layout {
        ViewportLayout::Single => seq![rect],
        ViewportLayout::SplitVertical => seq![(x, y, lw, h), ((x + lw) as u32, y, rw, h)],
        ViewportLayout::SplitHorizontal => seq![(x, y, w, th), (x, (y + th) as u32, w, bh)],
        ViewportLayout::Quad => seq![
            (x, y, lw, th),
            ((x + lw) as u32, y, rw, th),
            (x, (y + th) as u32, lw, bh),
            ((x + lw) as u32, (y + th) as u32, rw, bh),
        ],
    }
}

/// Whether computing the tiles stays within `u32`: the second column starts
/// at `x + w / 2` and the second row at `y + h / 2`.
pub open spec fn tiles_fit(layout: ViewportLayout, rect: ViewRect) -> bool {
    let (x, y, w, h) = rect;
    let cols = x + w / 2 <= u32::MAX;
    let rows = y + h / 2 <= u32::MAX;
    match layout {
        ViewportLayout::Single => true,
        ViewportLayout::SplitVertical => cols,
        ViewportLayout::SplitHorizontal => rows,
        ViewportLayout::Quad => cols && rows,
    }
}

/// The menu label of a layout.
pub open spec fn spec_label(layout: ViewportLayout) -> Seq<char> {
    match layout {
        ViewportLayout::Single => "1 Viewport"@,
        ViewportLayout::SplitVertical => "2 Side by Side"@,
        ViewportLayout::SplitHorizontal => "2 Stacked"@,
        ViewportLayout::Quad => "4 Viewports"@,
    }
}

/// Whether two rectangles share any pixel.
pub open spec fn rects_overlap(a: ViewRect, b: ViewRect) -> bool {
    a.0 < b.0 + b.2 && b.0 < a.0 + a.2 && a.1 < b.1 + b.3 && b.1 < a.1 + a.3
}

/// Whether `a` lies inside `region`.
pub open spec fn rect_within(a: ViewRect, region: ViewRect) -> bool {
    a.0 >= region.0 && a.1 >= region.1 && a.0 + a.2 <= region.0 + region.2 && a.1 + a.3
        <= region.1 + region.3
}

/// The summed pixel area of a list of rectangles.
pub open spec fn total_area(tiles: Seq<ViewRect>) -> int
    decreases tiles.len(),
{
    if tiles.len() == 0 {
        0
    } else {
        total_area(tiles.drop_last()) + tiles.last().2 * tiles.last().3
    }
}

impl Default for ViewportLayout {
    fn default() -> (l: Self)
        ensures
            l == ViewportLayout::Single,
    {
        ViewportLayout::Single
    }
}

impl ViewportLayout {
    /// How many views the layout draws, as a plain number.
    pub open spec fn spec_count(self) -> usize {
        match self {
            ViewportLayout::Single => 1,
            ViewportLayout::SplitVertical | ViewportLayout::SplitHorizontal => 2,
            ViewportLayout::Quad => 4,
        }
    }

    /// Every layout, in menu order.
    pub const ALL: [ViewportLayout; 4] = [
        ViewportLayout::Single,
        ViewportLayout::SplitVertical,
        ViewportLayout::SplitHorizontal,
        ViewportLayout::Quad,
    ];

    /// How many views this layout draws.
    #[verifier::when_used_as_spec(spec_count)]
    pub fn count(self) -> (n: usize)
        ensures
            n == self.spec_count(),
    {
        match self {
            ViewportLayout::Single => 1,
            ViewportLayout::SplitVertical | ViewportLayout::SplitHorizontal => 2,
            ViewportLayout::Quad => 4,
        }
    }

    /// The layout's menu label.
    pub fn label(self) -> (s: &'static str)
        ensures
            s@ == spec_label(self),
    {
        match self {
            ViewportLayout::Single => "1 Viewport",
            ViewportLayout::SplitVertical => "2 Side by Side",
            ViewportLayout::SplitHorizontal => "2 Stacked",
            ViewportLayout::Quad => "4 Viewports",
        }
    }

    /// Divide a region into this layout's tiles, in physical pixels.
    ///
    /// No gutter is left between tiles: the editor draws its own seam over
    /// them.
    pub fn tiles(self, rect: ViewRect) -> (tiles: Vec<ViewRect>)
        requires
            tiles_fit(self, rect),
        ensures
            tiles@ == spec_tiles(self, rect),
    {
        let (x, y, w, h) = rect;
        let lw = w / 2;
        let rw = w - w / 2;
        let th = h / 2;
        let bh = h - h / 2;
        match self {
            ViewportLayout::Single => vec![rect],
            ViewportLayout::SplitVertical => vec![(x, y, lw, h), (x + lw, y, rw, h)],
            ViewportLayout::SplitHorizontal => vec![(x, y, w, th), (x, y + th, w, bh)],
            ViewportLayout::Quad => vec![
                (x, y, lw, th),
                (x + lw, y, rw, th),
                (x, y + th, lw, bh),
                (x + lw, y + th, rw, bh),
            ],
        }
    }
}

/// Tiles partition their region: there are `count()` of them, each lies
/// inside the region, no two share a pixel, and their areas add up to the
/// region's area, so no pixel is lost to a seam or drawn twice.
pub proof fn lemma_tiles_partition_region(layout: ViewportLayout, rect: ViewRect)
    requires
        tiles_fit(layout, rect),
        rect.0 + rect.2 <= u32::MAX,
        rect.1 + rect.3 <= u32::MAX,
    ensures
        spec_tiles(layout, rect).len() == layout.spec_count(),
        forall|i: int|
            0 <= i < spec_tiles(layout, rect).len() ==> rect_within(
                #[trigger] spec_tiles(layout, rect)[i],
                rect,
            ),
        forall|i: int, j: int|
            0 <= i < j < spec_tiles(layout, rect).len() ==> !rects_overlap(
                #[trigger] spec_tiles(layout, rect)[i],
                #[trigger] spec_tiles(layout, rect)[j],
            ),
        total_area(spec_tiles(layout, rect)) == rect.2 * rect.3,
{
    let (x, y, w, h) = rect;
    let lw = w / 2;
    let rw = w - w / 2;
    let th = h / 2;
    let bh = h - h / 2;
    let t = spec_tiles(layout, rect);
    reveal_with_fuel(total_area, 5);
    match layout {
        ViewportLayout::Single => {
            assert(t.drop_last() =~= Seq::<ViewRect>::empty());
        },
        ViewportLayout::SplitVertical => {
            assert(t.drop_last().drop_last() =~= Seq::<ViewRect>::empty());
            assert(lw * h + rw * h == w * h) by (nonlinear_arith)
                requires
                    lw + rw == w,
            ;
        },
        ViewportLayout::SplitHorizontal => {
            assert(t.drop_last().drop_last() =~= Seq::<ViewRect>::empty());
            assert(w * th + w * bh == w * h) by (nonlinear_arith)
                requires
                    th + bh == h,
            ;
        },
        ViewportLayout::Quad => {
            assert(t.drop_last().drop_last().drop_last().drop_last() =~= Seq::<ViewRect>::empty());
            assert(lw * th + rw * th + lw * bh + rw * bh == w * h) by (nonlinear_arith)
                requires
                    lw + rw == w,
                    th + bh == h,
            ;
        },
    }
}

} // verus!
