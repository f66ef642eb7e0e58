use gds_text::bitmap::{Bitmap, MergedRegion, Rect};
use gds_text::text_render::{paint_square, trim};

fn lit(w: u32, h: u32, pixels: &[(u32, u32)]) -> Bitmap {
    let mut b = Bitmap::new(w, h);
    for &(x, y) in pixels {
        b.set(x, y, true);
    }
    b
}

fn lit_list(b: &Bitmap) -> Vec<(u32, u32)> {
    b.iter_on()
}

#[test]
fn new_bitmap_is_blank() {
    let b = Bitmap::new(3, 2);
    assert_eq!(b.width(), 3);
    assert_eq!(b.height(), 2);
    for y in 0..2 {
        for x in 0..3 {
            assert!(!b.get(x, y));
        }
    }
    assert!(b.iter_on().is_empty());
}

#[test]
fn empty_bitmap_has_no_pixels() {
    let b = Bitmap::new(0, 0);
    assert_eq!(b.width(), 0);
    assert_eq!(b.height(), 0);
    assert!(!b.get(0, 0));
}

#[test]
fn read_after_write() {
    let mut b = Bitmap::new(4, 3);
    b.set(1, 2, true);
    assert!(b.get(1, 2));
    assert!(!b.get(2, 1));
    b.set(1, 2, false);
    assert!(!b.get(1, 2));
}

#[test]
fn write_outside_changes_nothing() {
    let mut b = lit(2, 2, &[(0, 0)]);
    b.set(2, 0, true);
    b.set(0, 5, true);
    b.set(100, 100, true);
    assert_eq!(lit_list(&b), vec![(0, 0)]);
    assert!(!b.get(2, 0));
    assert!(!b.get(0, 5));
}

#[test]
fn get_outside_is_dark() {
    let b = lit(2, 2, &[(0, 0), (1, 0), (0, 1), (1, 1)]);
    assert!(!b.get(2, 0));
    assert!(!b.get(0, 2));
    assert!(!b.get(u32::MAX, u32::MAX));
}

#[test]
fn quarter_turn_clockwise() {
    // 90 degrees maps (x, y) to (H - 1 - y, x).
    let b = lit(3, 2, &[(0, 0), (2, 1)]);
    let r = b.rotate_cw_exact(1);
    assert_eq!(r.width(), 2);
    assert_eq!(r.height(), 3);
    assert_eq!(lit_list(&r), vec![(1, 0), (0, 2)]);
}

#[test]
fn half_turn() {
    // 180 degrees maps (x, y) to (W - 1 - x, H - 1 - y).
    let b = lit(3, 2, &[(0, 0), (1, 1)]);
    let r = b.rotate_cw_exact(2);
    assert_eq!(r.width(), 3);
    assert_eq!(r.height(), 2);
    assert_eq!(lit_list(&r), vec![(1, 0), (2, 1)]);
}

#[test]
fn three_quarter_turn() {
    // 270 degrees maps (x, y) to (y, W - 1 - x).
    let b = lit(3, 2, &[(0, 0)]);
    let r = b.rotate_cw_exact(3);
    assert_eq!(r.width(), 2);
    assert_eq!(r.height(), 3);
    assert_eq!(lit_list(&r), vec![(0, 2)]);
}

#[test]
fn full_turn_is_identity() {
    let b = lit(3, 2, &[(0, 0), (2, 1), (1, 0)]);
    for steps in [0u8, 4, 8] {
        let r = b.rotate_cw_exact(steps);
        assert_eq!(r.width(), 3);
        assert_eq!(r.height(), 2);
        assert_eq!(lit_list(&r), lit_list(&b));
    }
}

#[test]
fn turns_compose_and_undo() {
    let b = lit(4, 3, &[(0, 0), (3, 1), (2, 2), (1, 2)]);
    let back = b.rotate_cw_exact(1).rotate_cw_exact(3);
    assert_eq!(back.width(), 4);
    assert_eq!(back.height(), 3);
    assert_eq!(lit_list(&back), lit_list(&b));
    let twice = b.rotate_cw_exact(1).rotate_cw_exact(1);
    assert_eq!(lit_list(&twice), lit_list(&b.rotate_cw_exact(2)));
    assert_eq!(lit_list(&b.rotate_cw_exact(5)), lit_list(&b.rotate_cw_exact(1)));
}

#[test]
fn duplicate_keeps_pixels() {
    let b = lit(3, 3, &[(0, 1), (2, 2)]);
    let d = b.duplicate();
    assert_eq!(d.width(), 3);
    assert_eq!(d.height(), 3);
    assert_eq!(lit_list(&d), vec![(0, 1), (2, 2)]);
}

#[test]
fn lit_pixels_in_row_major_order() {
    let b = lit(3, 2, &[(2, 0), (0, 1), (1, 0)]);
    assert_eq!(b.iter_on(), vec![(1, 0), (2, 0), (0, 1)]);
}

#[test]
fn trim_blank_gives_single_dark_pixel() {
    let b = Bitmap::new(5, 4);
    let t = trim(&b);
    assert_eq!(t.width(), 1);
    assert_eq!(t.height(), 1);
    assert!(!t.get(0, 0));
}

#[test]
fn trim_cuts_to_tight_box() {
    let b = lit(5, 5, &[(1, 2), (3, 3)]);
    let t = trim(&b);
    assert_eq!(t.width(), 3);
    assert_eq!(t.height(), 2);
    assert_eq!(lit_list(&t), vec![(0, 0), (2, 1)]);
}

#[test]
fn trim_is_idempotent() {
    let b = lit(6, 4, &[(2, 1), (4, 3), (3, 2)]);
    let t = trim(&b);
    let tt = trim(&t);
    assert_eq!(tt.width(), t.width());
    assert_eq!(tt.height(), t.height());
    assert_eq!(lit_list(&tt), lit_list(&t));
}

#[test]
fn runs_of_rows() {
    let b = lit(4, 2, &[(0, 0), (1, 0), (3, 0), (1, 1), (2, 1), (3, 1)]);
    let r = b.to_rectangles();
    assert_eq!(
        r,
        vec![
            Rect { x: 0, y: 0, w: 2, h: 1 },
            Rect { x: 3, y: 0, w: 1, h: 1 },
            Rect { x: 1, y: 1, w: 3, h: 1 },
        ]
    );
}

#[test]
fn runs_cover_each_lit_pixel_once() {
    let b = lit(5, 3, &[(0, 0), (1, 0), (4, 0), (2, 1), (0, 2), (1, 2), (2, 2), (3, 2), (4, 2)]);
    let r = b.to_rectangles();
    for y in 0..3 {
        for x in 0..5 {
            let n = r
                .iter()
                .filter(|q| q.x <= x && x < q.x + q.w && q.y <= y && y < q.y + q.h)
                .count();
            assert_eq!(n, if b.get(x, y) { 1 } else { 0 });
        }
    }
}

#[test]
fn runs_of_blank_bitmap() {
    assert!(Bitmap::new(3, 3).to_rectangles().is_empty());
}

#[test]
fn merged_regions_hold_the_runs() {
    let b = lit(3, 1, &[(0, 0), (2, 0)]);
    let regions = b.to_merged_regions();
    assert_eq!(regions.len(), 1);
    match &regions[0] {
        MergedRegion::Rectangles(rs) => {
            assert_eq!(rs, &vec![Rect { x: 0, y: 0, w: 1, h: 1 }, Rect { x: 2, y: 0, w: 1, h: 1 }]);
        }
        MergedRegion::Polygon(_) => panic!("expected rectangles"),
    }
}

#[test]
fn quarter_turns_keep_lit_count_and_area() {
    let b = lit(5, 3, &[(0, 0), (4, 2), (2, 1), (3, 1)]);
    for steps in 0u8..6 {
        let r = b.rotate_cw_exact(steps);
        assert_eq!(r.iter_on().len(), 4);
        assert_eq!(r.width() * r.height(), 15);
    }
}

#[test]
fn paint_square_clips_to_bitmap() {
    let mut b = Bitmap::new(4, 3);
    paint_square(&mut b, -1, 1, 3, 5);
    assert_eq!(b.iter_on(), vec![(0, 1), (1, 1), (0, 2), (1, 2)]);
    let mut c = Bitmap::new(2, 2);
    paint_square(&mut c, 0, 0, 0, 2);
    assert!(c.iter_on().is_empty());
    paint_square(&mut c, 1, 1, u32::MAX, 1);
    assert!(c.iter_on().is_empty());
}
