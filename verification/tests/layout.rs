use somnium_ui::viewport_layout::{ViewRect, ViewportLayout};
use somnium_ui::virtual_list::{GridWindow, KeySelection, RowWindow};
use somnium_ui::virtual_list::grid_rows;

fn overlaps(a: ViewRect, b: ViewRect) -> bool {
    a.0 < b.0 + b.2 && b.0 < a.0 + a.2 && a.1 < b.1 + b.3 && b.1 < a.1 + a.3
}

#[test]
fn tiles_cover_the_region_exactly_and_never_overlap() {
    for layout in [
        ViewportLayout::Single,
        ViewportLayout::SplitVertical,
        ViewportLayout::SplitHorizontal,
        ViewportLayout::Quad,
    ] {
        for region in [(0, 0, 1921, 1081), (17, 9, 800, 601), (0, 0, 2, 2)] {
            let tiles = layout.tiles(region);
            assert_eq!(tiles.len(), layout.count(), "{layout:?}");
            let area: u32 = tiles.iter().map(|(_, _, w, h)| w * h).sum();
            assert_eq!(
                area,
                region.2 * region.3,
                "{layout:?} at {region:?} lost or double-counted pixels: {tiles:?}"
            );
            for (i, a) in tiles.iter().enumerate() {
                for b in &tiles[i + 1..] {
                    assert!(!overlaps(*a, *b), "{layout:?}: {a:?} overlaps {b:?}");
                }
                assert!(
                    a.0 >= region.0
                        && a.1 >= region.1
                        && a.0 + a.2 <= region.0 + region.2
                        && a.1 + a.3 <= region.1 + region.3,
                    "{layout:?}: {a:?} escapes {region:?}"
                );
            }
        }
    }
}

#[test]
fn one_full_size_viewport_is_the_default() {
    assert_eq!(ViewportLayout::default(), ViewportLayout::Single);
    assert_eq!(ViewportLayout::default().count(), 1);
    assert_eq!(
        ViewportLayout::default().tiles((10, 20, 300, 400)),
        [(10, 20, 300, 400)],
        "the single layout is the whole region, undivided"
    );
}

#[test]
fn every_layout_is_listed_and_named() {
    assert_eq!(ViewportLayout::ALL.len(), 4);
    for layout in ViewportLayout::ALL {
        assert!(!layout.label().is_empty(), "{layout:?}");
        assert!(layout.count() >= 1);
    }
}

#[test]
fn an_odd_width_splits_into_a_half_and_the_rest() {
    assert_eq!(ViewportLayout::SplitVertical.tiles((0, 0, 5, 3)), vec![(0, 0, 2, 3), (2, 0, 3, 3)]);
    assert_eq!(ViewportLayout::SplitHorizontal.tiles((1, 1, 4, 5)), vec![(1, 1, 4, 2), (1, 3, 4, 3)]);
    assert_eq!(
        ViewportLayout::Quad.tiles((0, 0, 3, 3)),
        vec![(0, 0, 1, 1), (1, 0, 2, 1), (0, 1, 1, 2), (1, 1, 2, 2)]
    );
    assert_eq!(ViewportLayout::Quad.label(), "4 Viewports");
    assert_eq!(ViewportLayout::Single.label(), "1 Viewport");
}

#[test]
fn a_selection_sorts_and_deduplicates_what_it_is_given() {
    let selection = KeySelection::from_keys(vec![9, 1, 9, 5, 1]);
    assert_eq!(selection.keys(), &[1, 5, 9]);
    assert!(selection.contains(5));
    assert!(!selection.contains(6));
    assert!(KeySelection::default().is_empty());
}

#[test]
fn a_selection_counts_distinct_keys() {
    let selection = KeySelection::from_keys(vec![4001, 3, 4001, 3, 3, 0]);
    assert_eq!(selection.len(), 3);
    assert!(!selection.is_empty());
    assert_eq!(selection.keys(), &[0, 3, 4001]);
    assert!(KeySelection::from_keys(Vec::new()).is_empty());
}

#[test]
fn windows_are_ranges() {
    let window = RowWindow { first: 10, count: 5 };
    assert_eq!(window.range(), 10..15);
    assert!(window.contains(10));
    assert!(window.contains(14));
    assert!(!window.contains(15));
    assert!(!window.contains(9));
    assert!(!window.is_empty());
    assert!(RowWindow::empty().is_empty());
    assert_eq!(RowWindow::empty().range(), 0..0);
    let grid = GridWindow { first: 8, count: 4, columns: 4, total_rows: 3 };
    assert_eq!(grid.range(), 8..12);
    assert!(!grid.is_empty());
}

#[test]
fn a_row_window_adds_overscan_and_stops_at_the_end() {
    assert_eq!(RowWindow::from_rows(10, 20, 100), RowWindow { first: 9, count: 12 });
    assert_eq!(RowWindow::from_rows(0, 5, 100), RowWindow { first: 0, count: 6 });
    assert_eq!(RowWindow::from_rows(95, 200, 100), RowWindow { first: 94, count: 6 });
    assert_eq!(RowWindow::from_rows(500, 530, 100), RowWindow::empty());
    assert_eq!(RowWindow::from_rows(0, usize::MAX, 3), RowWindow { first: 0, count: 3 });
}

#[test]
fn a_grid_window_is_cut_to_the_tiles_that_exist() {
    assert_eq!(grid_rows(10, 4), 3);
    assert_eq!(grid_rows(12, 4), 3);
    assert_eq!(grid_rows(0, 4), 0);
    let rows = RowWindow::from_rows(1, 2, grid_rows(10, 4));
    let grid = GridWindow::from_rows(rows, 4, 10);
    assert_eq!(grid, GridWindow { first: 0, count: 10, columns: 4, total_rows: 3 });
    let tail = GridWindow::from_rows(RowWindow { first: 2, count: 1 }, 4, 10);
    assert_eq!(tail.range(), 8..10);
    assert_eq!(tail.tile_cell(9), (1, 2));
    let degenerate = GridWindow { first: 0, count: 0, columns: 0, total_rows: 0 };
    assert_eq!(degenerate.tile_cell(5), (0, 5));
}
