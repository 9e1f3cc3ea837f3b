//! Windowing for long uniform-height lists, and selections held by key.
//!
//! Given a clip rectangle, which rows can be seen? The answer is computed
//! from floating-point geometry with the rest of the layout code; this
//! module holds the windows it produces, what they contain, and the
//! selection that must not move when they do.

use core::ops::Range;
use vstd::prelude::*;

verus! {

/// Rows drawn beyond each edge of the clip, so a row one pixel inside the
/// clip is never a gap.
pub const OVERSCAN: usize = 1;

/// The slice of a uniform-height list that intersects a clip: the
/// half-open range `first..first + count`. Empty when the list is scrolled
/// entirely out of view, which is a real state and not an error.
#[derive(Clone, Copy, Debug, PartialEq, Eq, Structural)]
pub struct RowWindow {
    /// First row to materialise.
    pub first: usize,
    /// How many rows from `first`.
    pub count: usize,
}

impl RowWindow {
    /// Nothing visible.
    pub fn empty() -> (w: Self)
        ensures
            w == (RowWindow { first: 0, count: 0 }),
    {
        RowWindow { first: 0, count: 0 }
    }

    /// The half-open range of rows to iterate.
    pub fn range(&self) -> (r: Range<usize>)
        requires
            self.first + self.count <= usize::MAX,
        ensures
            r.start == self.first,
            r.end == self.first + self.count,
    {
        self.first..self.first + self.count
    }

    /// Whether a row index is inside the window.
    pub fn contains(&self, row: usize) -> (b: bool)
        requires
            self.first + self.count <= usize::MAX,
        ensures
            b == (self.first <= row < self.first + self.count),
    {
        row >= self.first && row < self.first + self.count
    }

    /// Whether no row is visible.
    pub fn is_empty(&self) -> (b: bool)
        ensures
            b == (self.count == 0),
    {
        self.count == 0
    }

    /// The window over `total` rows when rows `above..below` meet the clip:
    /// one row of overscan each way, cut to the list, and empty when
    /// nothing is left.
    pub fn from_rows(above: usize, below: usize, total: usize) -> (w: Self)
        ensures
            w == spec_row_window(above, below, total),
    {
        let first = if above >= OVERSCAN { above - OVERSCAN } else { 0 };
        let past = if below <= usize::MAX - OVERSCAN { below + OVERSCAN } else { usize::MAX };
        let last = if past < total { past } else { total };
        if first >= last {
            RowWindow::empty()
        } else {
            RowWindow { first, count: last - first }
        }
    }
}

/// The window over `total` rows when rows `above..below` meet the clip.
pub open spec fn spec_row_window(above: usize, below: usize, total: usize) -> RowWindow {
    let first = if above >= OVERSCAN { above - OVERSCAN } else { 0 };
    let past = if below + OVERSCAN <= usize::MAX { below + OVERSCAN } else { usize::MAX as int };
    let last = if past < total { past } else { total as int };
    if first >= last {
        RowWindow { first: 0, count: 0 }
    } else {
        RowWindow { first: first as usize, count: (last - first) as usize }
    }
}

/// Whether `w` holds row `row`.
pub open spec fn window_holds(w: RowWindow, row: int) -> bool {
    w.first <= row < w.first + w.count
}

/// A window never runs past the end of the list, and it holds every row of
/// the list that meets the clip, with one row of overscan each way.
pub proof fn lemma_row_window_covers_the_clip(above: usize, below: usize, total: usize)
    ensures
        spec_row_window(above, below, total).first + spec_row_window(above, below, total).count <= total,
        forall|row: int|
            above <= row < below && row < total ==> #[trigger] window_holds(spec_row_window(above, below, total), row),
        above >= 1 && above - 1 < below && above - 1 < total ==> spec_row_window(above, below, total).first
            == above - 1,
        below < total && above <= below ==> spec_row_window(above, below, total).first
            + spec_row_window(above, below, total).count == below + 1,
{
}

/// How many rows `total` tiles take at `columns` a row: the last row may
/// be short.
pub fn grid_rows(total: usize, columns: usize) -> (rows: usize)
    requires
        columns >= 1,
    ensures
        rows == spec_grid_rows(total, columns),
        rows * columns >= total,
        rows == 0 || (rows - 1) * columns < total,
{
    let whole = total / columns;
    proof {
        lemma_grid_rows(total, columns);
        let r = total % columns;
        assert(r == 0 || whole < usize::MAX) by (nonlinear_arith)
            requires
                columns >= 1,
                whole == total / columns,
                r == total % columns,
                total <= usize::MAX,
        ;
    }
    if total % columns == 0 {
        whole
    } else {
        whole + 1
    }
}

/// `total / columns`, rounded up.
pub open spec fn spec_grid_rows(total: usize, columns: usize) -> int {
    total / columns + if total % columns == 0 { 0int } else { 1int }
}

proof fn lemma_grid_rows(total: usize, columns: usize)
    requires
        columns >= 1,
    ensures
        spec_grid_rows(total, columns) * columns >= total,
        spec_grid_rows(total, columns) == 0 || (spec_grid_rows(total, columns) - 1) * columns < total,
{
    let q = total / columns;
    let r = total % columns;
    assert(total == q * columns + r && 0 <= r < columns) by (nonlinear_arith)
        requires
            columns >= 1,
            q == total / columns,
            r == total % columns,
    ;
    if r == 0 {
        assert(q * columns >= total);
        if q > 0 {
            assert((q - 1) * columns < total) by (nonlinear_arith)
                requires
                    total == q * columns,
                    columns >= 1,
            ;
        }
    } else {
        assert((q + 1) * columns >= total) by (nonlinear_arith)
            requires
                total == q * columns + r,
                r < columns,
        ;
        assert(q * columns < total);
    }
}

/// The slice of a uniform grid that intersects a clip: rows of columns.
#[derive(Clone, Copy, Debug, PartialEq, Eq, Structural)]
pub struct GridWindow {
    /// First tile index to materialise.
    pub first: usize,
    /// How many tiles from `first`.
    pub count: usize,
    /// Tiles per row, as used to compute the window.
    pub columns: usize,
    /// Rows the whole grid needs: what keeps the scrollbar honest while only
    /// a screenful is built.
    pub total_rows: usize,
}

impl GridWindow {
    /// The half-open range of tiles to iterate.
    pub fn range(&self) -> (r: Range<usize>)
        requires
            self.first + self.count <= usize::MAX,
        ensures
            r.start == self.first,
            r.end == self.first + self.count,
    {
        self.first..self.first + self.count
    }

    /// Whether no tile is visible.
    pub fn is_empty(&self) -> (b: bool)
        ensures
            b == (self.count == 0),
    {
        self.count == 0
    }

    /// The tiles of `total`, at `columns` a row, in the rows of `rows`. The
    /// last row is usually short, so the window is cut to the tiles that
    /// exist.
    pub fn from_rows(rows: RowWindow, columns: usize, total: usize) -> (w: Self)
        requires
            columns >= 1,
            rows.first + rows.count <= spec_grid_rows(total, columns),
            spec_grid_rows(total, columns) * columns <= usize::MAX,
        ensures
            w == spec_grid_window(rows, columns, total),
            w.count == 0 || w.first + w.count <= total,
    {
        let total_rows = grid_rows(total, columns);
        proof {
            assert(rows.first * columns <= total_rows * columns) by (nonlinear_arith)
                requires
                    rows.first <= total_rows,
            ;
            assert((rows.first + rows.count) * columns <= total_rows * columns) by (nonlinear_arith)
                requires
                    rows.first + rows.count <= total_rows,
            ;
        }
        let first = rows.first * columns;
        let end = (rows.first + rows.count) * columns;
        let last = if end < total { end } else { total };
        let count = if last >= first { last - first } else { 0 };
        GridWindow { first, count, columns, total_rows }
    }

    /// Which column and row tile `index` sits in; a grid of no columns is
    /// read as one column.
    pub fn tile_cell(&self, index: usize) -> (cell: (usize, usize))
        ensures
            cell == (if self.columns >= 1 {
                (index % self.columns, index / self.columns)
            } else {
                (0usize, index)
            }),
    {
        let columns = if self.columns >= 1 { self.columns } else { 1 };
        (index % columns, index / columns)
    }
}

/// The tile window over the rows of `rows`.
pub open spec fn spec_grid_window(rows: RowWindow, columns: usize, total: usize) -> GridWindow {
    let first = rows.first * columns;
    let end = (rows.first + rows.count) * columns;
    let last = if end < total { end } else { total as int };
    GridWindow {
        first: first as usize,
        count: (if last >= first { last - first } else { 0 }) as usize,
        columns,
        total_rows: spec_grid_rows(total, columns) as usize,
    }
}

/// Whether `s` is strictly ascending.
pub open spec fn strictly_ascending(s: Seq<u32>) -> bool {
    forall|i: int, j: int| 0 <= i < j < s.len() ==> #[trigger] s[i] < #[trigger] s[j]
}

/// A selection held by key rather than by row index.
///
/// A key is the thing the user picked; an index is a position that
/// filtering, sorting, expanding and scrolling all renumber. Sorted, so
/// membership is a binary search.
#[derive(Debug, PartialEq, Eq)]
pub struct KeySelection {
    keys: Vec<u32>,
}

impl View for KeySelection {
    type V = Seq<u32>;

    closed spec fn view(&self) -> Seq<u32> {
        self.keys@
    }
}

impl KeySelection {
    #[verifier::type_invariant]
    spec fn sorted_and_unique(&self) -> bool {
        strictly_ascending(self.keys@)
    }
}

impl Clone for KeySelection {
    fn clone(&self) -> (s: Self)
        ensures
            s@ == self@,
    {
        proof {
            use_type_invariant(self);
        }
        let mut keys: Vec<u32> = Vec::new();
        let mut i: usize = 0;
        while i < self.keys.len()
            invariant
                i <= self.keys@.len(),
                keys@ == self.keys@.take(i as int),
            decreases self.keys@.len() - i,
        {
            keys.push(self.keys[i]);
            proof {
                assert(self.keys@.take(i as int + 1) =~= self.keys@.take(i as int).push(self.keys@[i as int]));
            }
            i = i + 1;
        }
        proof {
            assert(self.keys@.take(i as int) =~= self.keys@);
        }
        KeySelection { keys }
    }
}

impl Default for KeySelection {
    fn default() -> (s: Self)
        ensures
            s@ == Seq::<u32>::empty(),
    {
        KeySelection { keys: Vec::new() }
    }
}

/// Where `key` sits in the strictly ascending `keys`: its index when
/// present, else the index it would be inserted at.
fn search(keys: &Vec<u32>, key: u32) -> (r: (bool, usize))
    requires
        strictly_ascending(keys@),
    ensures
        r.1 <= keys@.len(),
        r.0 ==> r.1 < keys@.len() && keys@[r.1 as int] == key,
        !r.0 ==> forall|i: int| 0 <= i < r.1 ==> keys@[i] < key,
        !r.0 ==> forall|i: int| r.1 <= i < keys@.len() ==> keys@[i] > key,
        r.0 == keys@.contains(key),
{
    let mut lo: usize = 0;
    let mut hi: usize = keys.len();
    while lo < hi
        invariant
            0 <= lo <= hi <= keys@.len(),
            strictly_ascending(keys@),
            forall|i: int| 0 <= i < lo ==> keys@[i] < key,
            forall|i: int| hi <= i < keys@.len() ==> keys@[i] > key,
        decreases hi - lo,
    {
        let mid = lo + (hi - lo) / 2;
        if keys[mid] < key {
            lo = mid + 1;
        } else if keys[mid] > key {
            hi = mid;
        } else {
            return (true, mid);
        }
    }
    (false, lo)
}

impl KeySelection {
    /// Build from any order, with duplicates removed.
    pub fn from_keys(keys: Vec<u32>) -> (s: Self)
        ensures
            strictly_ascending(s@),
            forall|k: u32| s@.contains(k) <==> keys@.contains(k),
    {
        let mut sorted: Vec<u32> = Vec::new();
        let mut i: usize = 0;
        while i < keys.len()
            invariant
                i <= keys@.len(),
                strictly_ascending(sorted@),
                forall|k: u32| sorted@.contains(k) <==> keys@.take(i as int).contains(k),
            decreases keys@.len() - i,
        {
            let key = keys[i];
            let (found, at) = search(&sorted, key);
            let ghost before = sorted@;
            if found {
                assert(sorted@[at as int] == key);
                assert(sorted@.contains(key));
                assert forall|k: u32| sorted@.contains(k) <==> (before.contains(k) || k == key) by {}
            } else {
                sorted.insert(at, key);
                proof {
                    assert(sorted@ =~= before.take(at as int).push(key) + before.skip(at as int));
                    assert forall|a: int, b: int| 0 <= a < b < sorted@.len() implies #[trigger] sorted@[a] < #[trigger] sorted@[b] by {
                        if a < at && b > at {
                            assert(sorted@[b] == before[b - 1]);
                        } else if a > at {
                            assert(sorted@[a] == before[a - 1]);
                            assert(sorted@[b] == before[b - 1]);
                        } else if b < at {
                            assert(sorted@[a] == before[a]);
                        }
                    }
                    assert forall|k: u32| sorted@.contains(k) implies before.contains(k) || k == key by {
                        let j = choose|j: int| 0 <= j < sorted@.len() && sorted@[j] == k;
                        if j < at {
                            assert(before[j] == k);
                        } else if j > at {
                            assert(before[j - 1] == k);
                        }
                    }
                    assert forall|k: u32| (before.contains(k) || k == key) implies sorted@.contains(k) by {
                        if k == key {
                            assert(sorted@[at as int] == key);
                        } else {
                            let j = choose|j: int| 0 <= j < before.len() && before[j] == k;
                            if j < at {
                                assert(sorted@[j] == k);
                            } else {
                                assert(sorted@[j + 1] == k);
                            }
                        }
                    }
                }
            }
            proof {
                assert(keys@.take(i as int + 1) =~= keys@.take(i as int).push(key));
                lemma_push_contains(keys@.take(i as int), key);
                assert(keys@.take(i as int + 1) == keys@.take(i as int).push(key));
                assert forall|k: u32| sorted@.contains(k) <==> keys@.take(i as int + 1).contains(k) by {
                    assert(keys@.take(i as int).push(key).contains(k) <==> (keys@.take(i as int).contains(k) || k == key));
                    assert(sorted@.contains(k) <==> (before.contains(k) || k == key));
                    assert(before.contains(k) <==> keys@.take(i as int).contains(k));
                }
            }
            i = i + 1;
        }
        proof {
            assert(keys@.take(i as int) =~= keys@);
        }
        KeySelection { keys: sorted }
    }

    /// Whether a key is selected, by binary search.
    pub fn contains(&self, key: u32) -> (b: bool)
        ensures
            b == self@.contains(key),
    {
        proof {
            use_type_invariant(self);
        }
        search(&self.keys, key).0
    }

    /// Whether nothing is selected.
    pub fn is_empty(&self) -> (b: bool)
        ensures
            b == (self@.len() == 0),
    {
        self.keys.len() == 0
    }

    /// How many keys are selected.
    pub fn len(&self) -> (n: usize)
        ensures
            n == self@.len(),
    {
        self.keys.len()
    }

    /// The selected keys, ascending.
    pub fn keys(&self) -> (keys: &[u32])
        ensures
            keys@ == self@,
            strictly_ascending(keys@),
    {
        proof {
            use_type_invariant(self);
        }
        self.keys.as_slice()
    }
}

proof fn lemma_push_contains(s: Seq<u32>, x: u32)
    ensures
        forall|k: u32| #[trigger] s.push(x).contains(k) <==> (s.contains(k) || k == x),
{
    assert forall|k: u32| #[trigger] s.push(x).contains(k) <==> (s.contains(k) || k == x) by {
        if s.push(x).contains(k) {
            let j = choose|j: int| 0 <= j < s.len() + 1 && s.push(x)[j] == k;
            if j < s.len() {
                assert(s[j] == k);
            }
        }
        if s.contains(k) {
            let j = choose|j: int| 0 <= j < s.len() && s[j] == k;
            assert(s.push(x)[j] == k);
        }
        if k == x {
            assert(s.push(x)[s.len() as int] == k);
        }
    }
}

/// Two strictly ascending sequences holding the same keys are the same
/// sequence, so a selection is determined by what it holds and not by the
/// order it was given in.
pub proof fn lemma_selection_is_determined_by_its_keys(x: Seq<u32>, y: Seq<u32>)
    requires
        strictly_ascending(x),
        strictly_ascending(y),
        forall|k: u32| x.contains(k) <==> y.contains(k),
    ensures
        x == y,
    decreases x.len() + y.len(),
{
    if x.len() > 0 && y.len() > 0 {
        if x[0] < y[0] {
            assert(x.contains(x[0]));
            let j = choose|j: int| 0 <= j < y.len() && y[j] == x[0];
            assert(y[0] <= y[j]);
        } else if y[0] < x[0] {
            assert(y.contains(y[0]));
            let j = choose|j: int| 0 <= j < x.len() && x[j] == y[0];
            assert(x[0] <= x[j]);
        }
        assert(x[0] == y[0]);
        assert forall|k: u32| x.drop_first().contains(k) <==> y.drop_first().contains(k) by {
            if x.drop_first().contains(k) {
                let j = choose|j: int| 0 <= j < x.len() - 1 && x.drop_first()[j] == k;
                assert(x[j + 1] == k);
                assert(y.contains(k));
                let m = choose|m: int| 0 <= m < y.len() && y[m] == k;
                assert(m != 0);
                assert(y.drop_first()[m - 1] == k);
            }
            if y.drop_first().contains(k) {
                let j = choose|j: int| 0 <= j < y.len() - 1 && y.drop_first()[j] == k;
                assert(y[j + 1] == k);
                assert(x.contains(k));
                let m = choose|m: int| 0 <= m < x.len() && x[m] == k;
                assert(m != 0);
                assert(x.drop_first()[m - 1] == k);
            }
        }
        lemma_selection_is_determined_by_its_keys(x.drop_first(), y.drop_first());
        assert(x =~= seq![x[0]] + x.drop_first());
        assert(y =~= seq![y[0]] + y.drop_first());
    } else if x.len() > 0 {
        assert(x.contains(x[0]));
    } else if y.len() > 0 {
        assert(y.contains(y[0]));
    } else {
        assert(x =~= y);
    }
}

} // verus!
