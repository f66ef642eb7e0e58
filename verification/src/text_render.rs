//! Trimming rendered text to the tight box around its lit pixels.
use vstd::prelude::*;
use crate::bitmap::{Bitmap, BitmapView, row_major_before, shifted, tight_box};

verus! {

/// Cut away empty rows and columns on all sides. A bitmap with no lit
/// pixel becomes a dark 1 x 1 bitmap.
pub fn trim(b: &Bitmap) -> (r: Bitmap)
    requires
        b.valid(),
    ensures
        r.valid(),
        (forall|p: (int, int)| !b@.on.contains(p)) ==> r@ == BitmapView::blank(1, 1),
        (exists|p: (int, int)| b@.on.contains(p)) ==> exists|x0: int, y0: int|
            tight_box(b@.on, x0, y0, r@.width as int, r@.height as int) && r@.on == shifted(
                b@.on,
                x0,
                y0,
            ),
{
    let ghost v = b@;
    proof {
        b.lemma_wf();
        b.lemma_area_fits();
    }
    let w = b.width();
    let h = b.height();
    let mut min_x = w;
    let mut min_y = h;
    let mut max_x: u32 = 0;
    let mut max_y: u32 = 0;
    let mut any = false;
    let mut y: u32 = 0;
    while y < h
        invariant
            b.valid(),
            v == b@,
            v.wf(),
            w == v.width,
            h == v.height,
            y <= h,
            any <==> exists|p: (int, int)| #[trigger] v.on.contains(p) && p.1 < y,
            any ==> {
                &&& min_x <= max_x < w
                &&& min_y <= max_y < h
                &&& forall|p: (int, int)| #[trigger]
                    v.on.contains(p) && p.1 < y ==> min_x <= p.0 <= max_x && min_y <= p.1
                        <= max_y
                &&& exists|p: (int, int)| #[trigger] v.on.contains(p) && p.0 == min_x
                &&& exists|p: (int, int)| #[trigger] v.on.contains(p) && p.0 == max_x
                &&& exists|p: (int, int)| #[trigger] v.on.contains(p) && p.1 == min_y
                &&& exists|p: (int, int)| #[trigger] v.on.contains(p) && p.1 == max_y
            },
        decreases h - y,
    {
        let mut x: u32 = 0;
        while x < w
            invariant
                b.valid(),
                v == b@,
                v.wf(),
                w == v.width,
                h == v.height,
                y < h,
                x <= w,
                any <==> exists|p: (int, int)| #[trigger]
                    v.on.contains(p) && row_major_before(p, (x as int, y as int)),
                any ==> {
                    &&& min_x <= max_x < w
                    &&& min_y <= max_y < h
                    &&& forall|p: (int, int)| #[trigger]
                        v.on.contains(p) && row_major_before(p, (x as int, y as int))
                            ==> min_x <= p.0 <= max_x && min_y <= p.1 <= max_y
                    &&& exists|p: (int, int)| #[trigger] v.on.contains(p) && p.0 == min_x
                    &&& exists|p: (int, int)| #[trigger] v.on.contains(p) && p.0 == max_x
                    &&& exists|p: (int, int)| #[trigger] v.on.contains(p) && p.1 == min_y
                    &&& exists|p: (int, int)| #[trigger] v.on.contains(p) && p.1 == max_y
                },
            decreases w - x,
        {
            if b.get(x, y) {
                let ghost q = (x as int, y as int);
                if !any {
                    min_x = x;
                    max_x = x;
                    min_y = y;
                    max_y = y;
                } else {
                    if x < min_x {
                        min_x = x;
                    }
                    if x > max_x {
                        max_x = x;
                    }
                    if y < min_y {
                        min_y = y;
                    }
                    if y > max_y {
                        max_y = y;
                    }
                }
                any = true;
                assert(v.on.contains(q));
            }
            x = x + 1;
        }
        y = y + 1;
    }
    if !any {
        let r = Bitmap::new(1, 1);
        assert forall|p: (int, int)| !v.on.contains(p) by {
            if v.on.contains(p) {
                assert(p.1 < h);
            }
        }
        return r;
    }
    assert forall|p: (int, int)| #[trigger]
        v.on.contains(p) implies min_x <= p.0 <= max_x && min_y <= p.1 <= max_y by {
        assert(p.1 < h);
    }
    let nw = max_x - min_x + 1;
    let nh = max_y - min_y + 1;
    proof {
        assert(nw as int * nh as int <= w as int * h as int) by (nonlinear_arith)
            requires
                nw <= w,
                nh <= h,
        ;
    }
    let mut out = Bitmap::new(nw, nh);
    let ghost target = shifted(v.on, min_x as int, min_y as int);
    let mut y: u32 = 0;
    while y < nh
        invariant
            b.valid(),
            v == b@,
            v.wf(),
            w == v.width,
            h == v.height,
            min_x <= max_x < w,
            min_y <= max_y < h,
            nw == max_x - min_x + 1,
            nh == max_y - min_y + 1,
            target == shifted(v.on, min_x as int, min_y as int),
            y <= nh,
            out.valid(),
            out@.width == nw,
            out@.height == nh,
            out@.on == Set::new(
                |p: (int, int)| target.contains(p) && 0 <= p.0 < nw && 0 <= p.1 < y,
            ),
        decreases nh - y,
    {
        let mut x: u32 = 0;
        while x < nw
            invariant
                b.valid(),
                v == b@,
                v.wf(),
                w == v.width,
                h == v.height,
                min_x <= max_x < w,
                min_y <= max_y < h,
                nw == max_x - min_x + 1,
                nh == max_y - min_y + 1,
                target == shifted(v.on, min_x as int, min_y as int),
                y < nh,
                x <= nw,
                out.valid(),
                out@.width == nw,
                out@.height == nh,
                out@.on == Set::new(
                    |p: (int, int)|
                        target.contains(p) && 0 <= p.0 < nw && 0 <= p.1 < nh
                            && row_major_before(p, (x as int, y as int)),
                ),
            decreases nw - x,
        {
            let ghost before = out@;
            if b.get(x + min_x, y + min_y) {
                out.set(x, y, true);
                assert(out@.on == before.on.insert((x as int, y as int)));
            }
            assert(out@.on =~= Set::new(
                |p: (int, int)|
                    target.contains(p) && 0 <= p.0 < nw && 0 <= p.1 < nh && row_major_before(
                        p,
                        (x + 1, y as int),
                    ),
            ));
            x = x + 1;
        }
        assert(out@.on =~= Set::new(
            |p: (int, int)| target.contains(p) && 0 <= p.0 < nw && 0 <= p.1 < y + 1,
        ));
        y = y + 1;
    }
    assert(out@.on =~= target);
    assert(tight_box(v.on, min_x as int, min_y as int, nw as int, nh as int));
    out
}

/// The picture with every pixel of the box `[x0, x1) x [y0, y1)` that lies
/// inside it lit.
pub open spec fn painted(v: BitmapView, x0: int, y0: int, x1: int, y1: int) -> BitmapView {
    BitmapView {
        width: v.width,
        height: v.height,
        on: Set::new(
            |p: (int, int)|
                v.on.contains(p) || (v.in_bounds(p.0, p.1) && x0 <= p.0 < x1 && y0 <= p.1 < y1),
        ),
    }
}

/// Light the `gw` x `gh` square of a glyph's coverage whose top-left pixel
/// is `(px, py)`; pixels outside the bitmap are skipped. A size that does
/// not fit `i32` paints nothing.
pub fn paint_square(b: &mut Bitmap, px: i32, py: i32, gw: u32, gh: u32)
    requires
        old(b).valid(),
        (gw as i32) > 0 ==> px + (gw as i32) - 1 <= i32::MAX,
        (gh as i32) > 0 ==> py + (gh as i32) - 1 <= i32::MAX,
    ensures
        final(b).valid(),
        final(b)@ == painted(
            old(b)@,
            px as int,
            py as int,
            px + (gw as i32) as int,
            py + (gh as i32) as int,
        ),
{
    let ghost v = b@;
    let ghost x1 = px + (gw as i32) as int;
    let ghost y1 = py + (gh as i32) as int;
    let w = b.width() as i64;
    let h = b.height() as i64;
    let gwi = (gw as i32) as i64;
    let ghi = (gh as i32) as i64;
    let x_lo: i64 = if px < 0 {
        0
    } else {
        px as i64
    };
    let x_hi: i64 = if px as i64 + gwi < w {
        px as i64 + gwi
    } else {
        w
    };
    let y_lo: i64 = if py < 0 {
        0
    } else {
        py as i64
    };
    let y_hi: i64 = if py as i64 + ghi < h {
        py as i64 + ghi
    } else {
        h
    };
    let ghost target = painted(v, px as int, py as int, x1, y1);
    if x_lo >= x_hi || y_lo >= y_hi {
        assert(b@.on =~= target.on);
        return;
    }
    let mut y = y_lo;
    while y < y_hi
        invariant
            b.valid(),
            b@.width == v.width,
            b@.height == v.height,
            w == v.width,
            h == v.height,
            w <= u32::MAX,
            h <= u32::MAX,
            x1 == px + gwi,
            y1 == py + ghi,
            target == painted(v, px as int, py as int, x1, y1),
            x_lo == (if px < 0 { 0 } else { px as int }),
            x_hi == (if px + gwi < w { px + gwi } else { w as int }),
            y_lo == (if py < 0 { 0 } else { py as int }),
            y_hi == (if py + ghi < h { py + ghi } else { h as int }),
            0 <= x_lo < x_hi <= w,
            0 <= y_lo <= y <= y_hi <= h,
            b@.on == Set::new(
                |p: (int, int)|
                    v.on.contains(p) || (v.in_bounds(p.0, p.1) && px <= p.0 < x1 && py <= p.1 < y1
                        && p.1 < y),
            ),
        decreases y_hi - y,
    {
        let mut x = x_lo;
        while x < x_hi
            invariant
                b.valid(),
                b@.width == v.width,
                b@.height == v.height,
                w == v.width,
                h == v.height,
                w <= u32::MAX,
                h <= u32::MAX,
                x1 == px + gwi,
                y1 == py + ghi,
                x_lo == (if px < 0 { 0 } else { px as int }),
                x_hi == (if px + gwi < w { px + gwi } else { w as int }),
                y_lo == (if py < 0 { 0 } else { py as int }),
                y_hi == (if py + ghi < h { py + ghi } else { h as int }),
                0 <= x_lo <= x <= x_hi <= w,
                0 <= y_lo <= y < y_hi <= h,
                b@.on == Set::new(
                    |p: (int, int)|
                        v.on.contains(p) || (v.in_bounds(p.0, p.1) && px <= p.0 < x1 && py <= p.1
                            < y1 && (p.1 < y || (p.1 == y && p.0 < x))),
                ),
            decreases x_hi - x,
        {
            let ghost before = b@;
            let xu = x as u32;
            let yu = y as u32;
            assert(xu as int == x && yu as int == y);
            b.set(xu, yu, true);
            assert(b@.on == before.on.insert((x as int, y as int)));
            assert(b@.on =~= Set::new(
                |p: (int, int)|
                    v.on.contains(p) || (v.in_bounds(p.0, p.1) && px <= p.0 < x1 && py <= p.1 < y1
                        && (p.1 < y || (p.1 == y && p.0 < x + 1))),
            ));
            x = x + 1;
        }
        assert(b@.on =~= Set::new(
            |p: (int, int)|
                v.on.contains(p) || (v.in_bounds(p.0, p.1) && px <= p.0 < x1 && py <= p.1 < y1 && p.1
                    < y + 1),
        ));
        y = y + 1;
    }
    assert(b@.on =~= target.on);
}

} // verus!
