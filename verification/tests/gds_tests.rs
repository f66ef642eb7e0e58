use gds_text::bitmap::{Bitmap, Rect};
use gds_text::config::{DesignRules, LayerConfig};
use gds_text::fill::FillConfig;
use gds_text::gds_out::{
    build_library, collect_text_cells, collect_text_rects, polygon_boundary, rect_boundary,
    rects_to_cells, Element, PlacedBitmap, SnippetRect,
};

fn lit(w: u32, h: u32, pixels: &[(u32, u32)]) -> Bitmap {
    let mut b = Bitmap::new(w, h);
    for &(x, y) in pixels {
        b.set(x, y, true);
    }
    b
}

fn boundary_of(e: &Element) -> (i16, i16, Vec<(i32, i32)>) {
    match e {
        Element::Boundary(b) => (b.layer, b.datatype, b.xy.clone()),
        Element::CellRef(_) => panic!("expected a boundary"),
    }
}

#[test]
fn rect_boundary_is_closed_outline() {
    let b = rect_boundary(1, 2, 3, 1, 150, 68, 20);
    assert_eq!(b.layer, 68);
    assert_eq!(b.datatype, 20);
    assert_eq!(b.xy, vec![(150, 300), (600, 300), (600, 450), (150, 450), (150, 300)]);
}

#[test]
fn rect_boundary_negative_origin() {
    let b = rect_boundary(-2, 0, 1, 2, 100, 1, 0);
    assert_eq!(b.xy, vec![(-200, 0), (-100, 0), (-100, 200), (-200, 200), (-200, 0)]);
}

#[test]
fn polygon_boundary_flips_and_closes() {
    let b = polygon_boundary(&[(0, 0), (1, 0), (1, 1)], 2, 3, 10, 100, 68, 20);
    assert_eq!(b.xy, vec![(200, 700), (300, 700), (300, 600), (200, 700)]);
    assert_eq!((b.layer, b.datatype), (68, 20));
}

#[test]
fn polygon_boundary_already_closed() {
    let b = polygon_boundary(&[(0, 0), (1, 0), (0, 0)], 0, 0, 5, 10, 1, 2);
    assert_eq!(b.xy, vec![(0, 50), (10, 50), (0, 50)]);
}

#[test]
fn polygon_boundary_empty() {
    let b = polygon_boundary(&[], 0, 0, 5, 10, 1, 2);
    assert!(b.xy.is_empty());
}

#[test]
fn rects_expand_to_cells() {
    let rs = vec![
        SnippetRect { rect: Rect { x: 1, y: 2, w: 2, h: 2 } },
        SnippetRect { rect: Rect { x: 0, y: 0, w: 1, h: 1 } },
    ];
    assert_eq!(rects_to_cells(&rs), vec![(1, 2), (2, 2), (1, 3), (2, 3), (0, 0)]);
    assert!(rects_to_cells(&[]).is_empty());
}

#[test]
fn text_rects_are_placed_runs() {
    let placed = vec![
        PlacedBitmap { bitmap: lit(3, 2, &[(0, 0), (1, 0), (2, 1)]), ox: 5, oy: 7 },
        PlacedBitmap { bitmap: lit(2, 1, &[(0, 0), (1, 0)]), ox: -3, oy: -1 },
    ];
    let rs = collect_text_rects(&placed);
    let got: Vec<Rect> = rs.iter().map(|r| r.rect).collect();
    assert_eq!(
        got,
        vec![
            Rect { x: 5, y: 7, w: 2, h: 1 },
            Rect { x: 7, y: 8, w: 1, h: 1 },
            Rect { x: 0, y: 0, w: 2, h: 1 },
        ]
    );
}

#[test]
fn text_cells_are_lit_pixels_moved() {
    let placed = vec![
        PlacedBitmap { bitmap: lit(3, 2, &[(0, 0), (1, 0), (2, 1)]), ox: 5, oy: 7 },
        PlacedBitmap { bitmap: lit(2, 2, &[(1, 1)]), ox: 0, oy: 1 },
    ];
    let mut cells = collect_text_cells(&placed);
    cells.sort();
    let mut expected = vec![(5, 7), (6, 7), (7, 8), (1, 2)];
    expected.sort();
    assert_eq!(cells, expected);
}

fn fill_cfg(w: u32, h: u32) -> FillConfig {
    let rules = DesignRules { min_width_nm: 150, ..DesignRules::default() };
    FillConfig { grid_nm: 150, rules, canvas_width_px: w, canvas_height_px: h }
}

#[test]
fn library_of_text_only() {
    let placed = vec![PlacedBitmap { bitmap: lit(2, 1, &[(0, 0), (1, 0)]), ox: 1, oy: 1 }];
    let lib = build_library(&placed, &fill_cfg(10, 10), LayerConfig::default(), 0);
    assert_eq!(lib.name, "GDS_TEXT");
    assert_eq!(lib.cells.len(), 1);
    let top = &lib.cells[0];
    assert_eq!(top.name, "TOP");
    assert_eq!(top.elems.len(), 1);
    let (layer, dt, xy) = boundary_of(&top.elems[0]);
    assert_eq!((layer, dt), (68, 20));
    assert_eq!(xy, vec![(150, 1200), (450, 1200), (450, 1350), (150, 1350), (150, 1200)]);
}

#[test]
fn library_with_fill() {
    let lib = build_library(&[], &fill_cfg(9, 6), LayerConfig::default(), 100);
    let top = &lib.cells[0];
    assert_eq!(top.elems.len(), 6);
    let (layer, dt, xy) = boundary_of(&top.elems[0]);
    assert_eq!((layer, dt), (68, 44));
    // Fill cell (0, 0) at the top-left becomes GDS row 6 - 1 - 0 = 5.
    assert_eq!(xy, vec![(0, 750), (150, 750), (150, 900), (0, 900), (0, 750)]);
    let (_, _, xy) = boundary_of(&top.elems[1]);
    // Fill cell (0, 3) becomes GDS row 2.
    assert_eq!(xy, vec![(0, 300), (150, 300), (150, 450), (0, 450), (0, 300)]);
}

#[test]
fn library_text_keeps_fill_away() {
    let placed = vec![PlacedBitmap { bitmap: lit(1, 1, &[(0, 0)]), ox: 0, oy: 0 }];
    let lib = build_library(&placed, &fill_cfg(9, 6), LayerConfig::default(), 100);
    let top = &lib.cells[0];
    // One text boundary, then the fill cells (6, 0) and (6, 3).
    assert_eq!(top.elems.len(), 3);
    let (l, d, _) = boundary_of(&top.elems[0]);
    assert_eq!((l, d), (68, 20));
    let (l, d, xy) = boundary_of(&top.elems[1]);
    assert_eq!((l, d), (68, 44));
    assert_eq!(xy[0], (900, 750));
    let (_, _, xy) = boundary_of(&top.elems[2]);
    assert_eq!(xy[0], (900, 300));
}

#[test]
fn library_of_nothing() {
    let lib = build_library(&[], &fill_cfg(9, 6), LayerConfig::default(), 0);
    assert_eq!(lib.cells.len(), 1);
    assert!(lib.cells[0].elems.is_empty());
}

#[test]
fn text_boundaries_cover_exactly_lit_cells() {
    // Law: a GDS cell is inside a text boundary exactly when the placed
    // bitmap has a lit pixel there (Y flipped against the canvas height).
    let grid = 100;
    let canvas_h = 12;
    let bmp = lit(4, 3, &[(0, 0), (1, 0), (3, 0), (1, 1), (2, 2), (3, 2)]);
    let lit_pixels = bmp.iter_on();
    let placed = vec![PlacedBitmap { bitmap: bmp, ox: 2, oy: 5 }];
    let cfg = FillConfig { grid_nm: grid, rules: DesignRules::default(), canvas_width_px: 12, canvas_height_px: canvas_h };
    let lib = build_library(&placed, &cfg, LayerConfig::default(), 0);
    let boxes: Vec<(i32, i32, i32, i32)> = lib.cells[0]
        .elems
        .iter()
        .map(|e| {
            let (_, _, xy) = boundary_of(e);
            (xy[0].0, xy[0].1, xy[2].0, xy[2].1)
        })
        .collect();
    for cx in -1..14 {
        for cy in -1..14 {
            let covered = boxes.iter().any(|&(x0, y0, x1, y1)| {
                x0 <= cx * grid as i32 && cx * (grid as i32) < x1 && y0 <= cy * grid as i32 && cy * (grid as i32) < y1
            });
            let expected = lit_pixels
                .iter()
                .any(|&(x, y)| cx == 2 + x as i32 && cy == canvas_h as i32 - 1 - (5 + y as i32));
            assert_eq!(covered, expected, "cell ({cx}, {cy})");
        }
    }
}

#[test]
fn fill_keeps_clear_of_every_lit_pixel() {
    let placed = vec![PlacedBitmap { bitmap: lit(3, 2, &[(0, 0), (2, 1)]), ox: 10, oy: 8 }];
    let c = fill_cfg(30, 24);
    let lib = build_library(&placed, &c, LayerConfig::default(), 1000);
    let fills: Vec<(i32, i32)> = lib.cells[0]
        .elems
        .iter()
        .map(boundary_of)
        .filter(|(l, d, _)| (*l, *d) == (68, 44))
        .map(|(_, _, xy)| (xy[0].0 / 150, 24 - 1 - xy[0].1 / 150))
        .collect();
    assert!(!fills.is_empty());
    for &(fx, fy) in &fills {
        for &(tx, ty) in &[(10, 8), (12, 9)] {
            assert!((fx - tx).abs() > 3 || (fy - ty).abs() > 3, "fill ({fx}, {fy})");
        }
    }
}

#[test]
fn every_vertex_on_the_grid() {
    let placed = vec![
        PlacedBitmap { bitmap: lit(4, 3, &[(0, 0), (1, 0), (3, 2), (2, 1)]), ox: 7, oy: 3 },
        PlacedBitmap { bitmap: lit(2, 2, &[(0, 1), (1, 1)]), ox: 20, oy: 15 },
    ];
    let lib = build_library(&placed, &fill_cfg(40, 30), LayerConfig::default(), 50);
    assert!(lib.cells[0].elems.len() > 4);
    for e in &lib.cells[0].elems {
        let (_, _, xy) = boundary_of(e);
        assert_eq!(xy.len(), 5);
        assert_eq!(xy[0], xy[4]);
        for &(x, y) in &xy {
            assert_eq!(x % 150, 0);
            assert_eq!(y % 150, 0);
        }
    }
}

#[test]
fn library_without_fill_may_have_any_grid() {
    let placed = vec![PlacedBitmap { bitmap: lit(1, 1, &[(0, 0)]), ox: 1, oy: 1 }];
    let cfg = FillConfig { grid_nm: 0, rules: DesignRules::default(), canvas_width_px: u32::MAX, canvas_height_px: 4 };
    let lib = build_library(&placed, &cfg, LayerConfig::default(), 0);
    assert_eq!(lib.cells[0].elems.len(), 1);
    let (_, _, xy) = boundary_of(&lib.cells[0].elems[0]);
    assert_eq!(xy, vec![(0, 0); 5]);
}

#[test]
fn library_fill_respects_min_width() {
    let cfg = FillConfig { grid_nm: 150, rules: DesignRules::default(), canvas_width_px: 9, canvas_height_px: 6 };
    let lib = build_library(&[], &cfg, LayerConfig::default(), 100);
    assert!(lib.cells[0].elems.is_empty());
}

#[test]
fn text_cells_count_overlaps_twice() {
    // Law: the text cells are the shifted lit pixels, as a multiset.
    let placed = vec![
        PlacedBitmap { bitmap: lit(2, 1, &[(0, 0), (1, 0)]), ox: 3, oy: 4 },
        PlacedBitmap { bitmap: lit(2, 2, &[(0, 0), (1, 1)]), ox: 4, oy: 4 },
    ];
    let mut cells = collect_text_cells(&placed);
    cells.sort();
    assert_eq!(cells, vec![(3, 4), (4, 4), (4, 4), (5, 5)]);
}

#[test]
fn text_cells_of_bitmap_starting_off_canvas() {
    let placed = vec![
        PlacedBitmap { bitmap: lit(3, 2, &[(2, 0), (1, 1), (2, 1)]), ox: -1, oy: 0 },
        PlacedBitmap { bitmap: lit(2, 3, &[(0, 2)]), ox: 4, oy: -2 },
    ];
    let mut cells = collect_text_cells(&placed);
    cells.sort();
    assert_eq!(cells, vec![(0, 1), (1, 0), (1, 1), (4, 0)]);
}
