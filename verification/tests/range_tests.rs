use gds_text::bitmap::Bitmap;
use gds_text::config::DesignRules;
use gds_text::fill::{fill_config_holds, FillConfig};
use gds_text::gds_out::{placement_fits_holds, text_fits_holds, Boundary, PlacedBitmap};
use gds_text::layout::{layout_cell_fits_holds, LayoutCell};
use gds_text::png_out::render_fits_holds;

fn lit(w: u32, h: u32, pixels: &[(u32, u32)]) -> Bitmap {
    let mut b = Bitmap::new(w, h);
    for &(x, y) in pixels {
        b.set(x, y, true);
    }
    b
}

#[test]
fn text_fits_on_ordinary_canvas() {
    let b = lit(3, 2, &[(0, 0), (2, 1)]);
    assert!(text_fits_holds(&b, 10, 20, 500, 150));
    assert!(text_fits_holds(&Bitmap::new(3, 3), 0, 0, 0, 150));
}

#[test]
fn text_too_far_right_does_not_fit() {
    let b = lit(3, 2, &[(2, 1)]);
    // (ox + 2 + 1) * grid passes i32::MAX.
    assert!(!text_fits_holds(&b, 14_316_555, 0, 500, 150));
    assert!(text_fits_holds(&b, 1_000_000, 0, 500, 150));
}

#[test]
fn wide_bitmap_does_not_fit() {
    let b = Bitmap::new(20_000_000, 0);
    assert!(!text_fits_holds(&b, 0, 0, 10, 150));
}

#[test]
fn placement_fits_limits() {
    let pb = PlacedBitmap { bitmap: lit(2, 2, &[(1, 1)]), ox: i32::MAX - 1, oy: 0 };
    assert!(placement_fits_holds(&pb));
    let pb = PlacedBitmap { bitmap: lit(3, 2, &[(2, 1)]), ox: i32::MAX - 1, oy: 0 };
    assert!(!placement_fits_holds(&pb));
    let pb = PlacedBitmap { bitmap: lit(3, 2, &[(2, 1)]), ox: -5, oy: i32::MAX };
    assert!(!placement_fits_holds(&pb));
}

#[test]
fn layout_cell_limits() {
    let c = LayoutCell { id: 1, bitmap: lit(2, 2, &[(0, 0)]), x: 3, y: 4 };
    assert!(layout_cell_fits_holds(&c, 20, 100));
    let c = LayoutCell { id: 1, bitmap: lit(2, 2, &[(0, 0)]), x: 30_000_000, y: 4 };
    assert!(!layout_cell_fits_holds(&c, 20, 100));
}

#[test]
fn fill_config_limits() {
    let mut c = FillConfig {
        grid_nm: 150,
        rules: DesignRules::default(),
        canvas_width_px: 800,
        canvas_height_px: 500,
    };
    assert!(fill_config_holds(&c));
    c.grid_nm = 0;
    assert!(!fill_config_holds(&c));
    c.grid_nm = 150;
    c.canvas_width_px = u32::MAX;
    assert!(!fill_config_holds(&c));
}

#[test]
fn render_fits_limits() {
    let b = Boundary { layer: 1, datatype: 0, xy: vec![(0, 0), (300, 0), (300, 150), (0, 150), (0, 0)] };
    assert!(render_fits_holds(&[b], 150, 1, 0));
    let empty = Boundary { layer: 1, datatype: 0, xy: vec![] };
    assert!(!render_fits_holds(&[empty], 150, 1, 0));
    let wide = Boundary {
        layer: 1,
        datatype: 0,
        xy: vec![(i32::MIN, 0), (i32::MAX, 0), (i32::MAX, 10), (i32::MIN, 10)],
    };
    assert!(!render_fits_holds(&[wide], 150, 1, 0));
    let big = Boundary { layer: 1, datatype: 0, xy: vec![(0, 0), (1_000_000, 1_000_000)] };
    assert!(!render_fits_holds(&[big], 1, 100_000, 0));
}
