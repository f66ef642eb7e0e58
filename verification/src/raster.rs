//! Pixel buffers for the canvas preview (RGBA, one pixel per grid cell)
//! and the PNG preview (RGB, `scale` x `scale` pixels per grid cell).
use vstd::prelude::*;
use crate::bitmap::{cell_index, lemma_cell_index_injective, lemma_cell_index_bounds};

verus! {

/// Byte offset of pixel `(x, y)` in a buffer `w` pixels wide with `bpp`
/// bytes per pixel.
pub open spec fn pixel_offset(w: int, x: int, y: int, bpp: int) -> int {
    (y * w + x) * bpp
}

proof fn lemma_pixel_offset_bounds(w: int, h: int, x: int, y: int, bpp: int)
    requires
        0 <= x < w,
        0 <= y < h,
        0 < bpp,
    ensures
        0 <= pixel_offset(w, x, y, bpp),
        pixel_offset(w, x, y, bpp) + bpp <= w * h * bpp,
{
    assert(0 <= (y * w + x) * bpp && (y * w + x) * bpp + bpp <= w * h * bpp) by (nonlinear_arith)
        requires
            0 <= x < w,
            0 <= y < h,
            0 < bpp,
    ;
}

/// Canvas preview buffer after setting RGBA pixel `(x, y)` to `c`; points
/// outside the `w` x `h` canvas change nothing.
pub open spec fn plot_spec(buf: Seq<u8>, w: int, h: int, x: int, y: int, c: Seq<u8>) -> Seq<u8> {
    if 0 <= x < w && 0 <= y < h {
        let i = pixel_offset(w, x, y, 4);
        buf.update(i, c[0]).update(i + 1, c[1]).update(i + 2, c[2]).update(i + 3, c[3])
    } else {
        buf
    }
}

/// Set RGBA pixel `(x, y)` of a `w` x `h` canvas to `color`; points outside
/// the canvas are ignored.
pub fn plot(rgba: &mut [u8], w: usize, h: usize, x: i32, y: i32, color: [u8; 4])
    requires
        0 <= x < w && 0 <= y < h ==> pixel_offset(w as int, x as int, y as int, 4) + 4 <= old(
            rgba,
        )@.len(),
    ensures
        final(rgba)@ == plot_spec(old(rgba)@, w as int, h as int, x as int, y as int, color@),
{
    if x < 0 || y < 0 || (x as usize) >= w || (y as usize) >= h {
        return;
    }
    let n = rgba.len();
    proof {
        assert(0 <= y as int * w as int <= pixel_offset(w as int, x as int, y as int, 4))
            by (nonlinear_arith)
            requires
                0 <= x < w,
                0 <= y,
        ;
    }
    let idx = ((y as usize) * w + (x as usize)) * 4;
    rgba[idx] = color[0];
    rgba[idx + 1] = color[1];
    rgba[idx + 2] = color[2];
    rgba[idx + 3] = color[3];
}

/// The top and bottom edges of a rectangle, drawn column by column from `x`.
pub open spec fn draw_hlines(
    buf: Seq<u8>,
    w: int,
    h: int,
    x: int,
    x1: int,
    y0: int,
    y1: int,
    c: Seq<u8>,
) -> Seq<u8>
    decreases x1 - x,
{
    if x >= x1 {
        buf
    } else {
        draw_hlines(plot_spec(plot_spec(buf, w, h, x, y0, c), w, h, x, y1 - 1, c), w, h, x + 1, x1, y0, y1, c)
    }
}

/// The left and right edges of a rectangle, drawn row by row from `y`.
pub open spec fn draw_vlines(
    buf: Seq<u8>,
    w: int,
    h: int,
    y: int,
    y1: int,
    x0: int,
    x1: int,
    c: Seq<u8>,
) -> Seq<u8>
    decreases y1 - y,
{
    if y >= y1 {
        buf
    } else {
        draw_vlines(plot_spec(plot_spec(buf, w, h, x0, y, c), w, h, x1 - 1, y, c), w, h, y + 1, y1, x0, x1, c)
    }
}

/// The outline of the rectangle `[x0, x1) x [y0, y1)`: top and bottom edges
/// first, then left and right edges.
pub open spec fn draw_rect_spec(
    buf: Seq<u8>,
    w: int,
    h: int,
    x0: int,
    y0: int,
    x1: int,
    y1: int,
    c: Seq<u8>,
) -> Seq<u8> {
    draw_vlines(draw_hlines(buf, w, h, x0, x1, y0, y1, c), w, h, y0, y1, x0, x1, c)
}

/// The buffer is large enough for every pixel of a `w` x `h` RGBA canvas.
pub open spec fn rgba_fits(len: int, w: int, h: int) -> bool {
    w * h * 4 <= len
}

proof fn lemma_plot_fits(buf: Seq<u8>, w: int, h: int, x: int, y: int, c: Seq<u8>)
    requires
        rgba_fits(buf.len() as int, w, h),
        0 <= w,
        0 <= h,
        c.len() == 4,
    ensures
        0 <= x < w && 0 <= y < h ==> pixel_offset(w, x, y, 4) + 4 <= buf.len(),
        plot_spec(buf, w, h, x, y, c).len() == buf.len(),
{
    if 0 <= x < w && 0 <= y < h {
        lemma_pixel_offset_bounds(w, h, x, y, 4);
    }
}

/// The edges of an outline drawn from `(x0, y0)` to `(x1, y1)` (exclusive)
/// need `x1 - 1` and `y1 - 1` only when the other range is not empty.
pub open spec fn rect_edges_fit(x0: i32, y0: i32, x1: i32, y1: i32) -> bool {
    &&& x0 < x1 ==> y1 > i32::MIN
    &&& y0 < y1 ==> x1 > i32::MIN
}

/// Draw the one-pixel outline of the rectangle `[x0, x1) x [y0, y1)`.
pub fn draw_rect(
    rgba: &mut [u8],
    w: usize,
    h: usize,
    x0: i32,
    y0: i32,
    x1: i32,
    y1: i32,
    color: [u8; 4],
)
    requires
        rgba_fits(old(rgba)@.len() as int, w as int, h as int),
        rect_edges_fit(x0, y0, x1, y1),
    ensures
        final(rgba)@.len() == old(rgba)@.len(),
        final(rgba)@ == draw_rect_spec(
            old(rgba)@,
            w as int,
            h as int,
            x0 as int,
            y0 as int,
            x1 as int,
            y1 as int,
            color@,
        ),
{
    let ghost orig = rgba@;
    let ghost mid = draw_hlines(orig, w as int, h as int, x0 as int, x1 as int, y0 as int, y1 as int, color@);
    let mut x = x0;
    while x < x1
        invariant
            x0 <= x,
            x0 < x1 ==> x <= x1,
            rect_edges_fit(x0, y0, x1, y1),
            rgba@.len() == orig.len(),
            rgba_fits(rgba@.len() as int, w as int, h as int),
            draw_hlines(rgba@, w as int, h as int, x as int, x1 as int, y0 as int, y1 as int, color@)
                == mid,
        decreases x1 - x,
    {
        proof {
            lemma_plot_fits(rgba@, w as int, h as int, x as int, y0 as int, color@);
        }
        plot(rgba, w, h, x, y0, color);
        proof {
            lemma_plot_fits(rgba@, w as int, h as int, x as int, y1 - 1, color@);
        }
        plot(rgba, w, h, x, y1 - 1, color);
        x = x + 1;
    }
    assert(rgba@ == mid);
    let mut y = y0;
    while y < y1
        invariant
            y0 <= y,
            y0 < y1 ==> y <= y1,
            rect_edges_fit(x0, y0, x1, y1),
            rgba@.len() == orig.len(),
            rgba_fits(rgba@.len() as int, w as int, h as int),
            draw_vlines(rgba@, w as int, h as int, y as int, y1 as int, x0 as int, x1 as int, color@)
                == draw_vlines(mid, w as int, h as int, y0 as int, y1 as int, x0 as int, x1 as int, color@),
        decreases y1 - y,
    {
        proof {
            lemma_plot_fits(rgba@, w as int, h as int, x0 as int, y as int, color@);
        }
        plot(rgba, w, h, x0, y, color);
        proof {
            lemma_plot_fits(rgba@, w as int, h as int, x1 - 1, y as int, color@);
        }
        plot(rgba, w, h, x1 - 1, y, color);
        y = y + 1;
    }
}

/// `buf` with every cell of `cells` plotted in colour `c`, in order.
pub open spec fn plot_cells_spec(buf: Seq<u8>, w: int, h: int, cells: Seq<(i32, i32)>, c: Seq<u8>) -> Seq<u8>
    decreases cells.len(),
{
    if cells.len() == 0 {
        buf
    } else {
        plot_spec(
            plot_cells_spec(buf, w, h, cells.drop_last(), c),
            w,
            h,
            cells.last().0 as int,
            cells.last().1 as int,
            c,
        )
    }
}

/// Outline colour of snippet `i`: strong blue when selected, light blue
/// otherwise.
pub open spec fn box_color(i: int, selected: Option<usize>) -> Seq<u8> {
    if selected == Some(i as usize) {
        seq![0u8, 120u8, 255u8, 255u8]
    } else {
        seq![120u8, 180u8, 230u8, 255u8]
    }
}

/// `buf` with the outline of every box drawn, in order.
pub open spec fn draw_boxes_spec(
    buf: Seq<u8>,
    w: int,
    h: int,
    boxes: Seq<(i32, i32, i32, i32)>,
    selected: Option<usize>,
) -> Seq<u8>
    decreases boxes.len(),
{
    if boxes.len() == 0 {
        buf
    } else {
        let b = boxes.last();
        draw_rect_spec(
            draw_boxes_spec(buf, w, h, boxes.drop_last(), selected),
            w,
            h,
            b.0 as int,
            b.1 as int,
            b.2 as int,
            b.3 as int,
            box_color(boxes.len() - 1, selected),
        )
    }
}

/// The canvas preview: a white `w` x `h` RGBA canvas, fill cells in grey,
/// text cells in black over them, then the outline of every snippet's
/// bounding box.
pub open spec fn preview_spec(
    w: int,
    h: int,
    fill: Seq<(i32, i32)>,
    text: Seq<(i32, i32)>,
    boxes: Seq<(i32, i32, i32, i32)>,
    selected: Option<usize>,
) -> Seq<u8> {
    let white = Seq::new((w * h * 4) as nat, |i: int| 255u8);
    let with_fill = plot_cells_spec(white, w, h, fill, seq![180u8, 180u8, 180u8, 255u8]);
    let with_text = plot_cells_spec(with_fill, w, h, text, seq![0u8, 0u8, 0u8, 255u8]);
    draw_boxes_spec(with_text, w, h, boxes, selected)
}

/// Plot every cell of `cells` in `color`.
fn plot_cells(rgba: &mut Vec<u8>, w: usize, h: usize, cells: &[(i32, i32)], color: [u8; 4])
    requires
        old(rgba)@.len() == w * h * 4,
    ensures
        final(rgba)@ == plot_cells_spec(old(rgba)@, w as int, h as int, cells@, color@),
        final(rgba)@.len() == w * h * 4,
{
    let ghost orig = rgba@;
    let mut i: usize = 0;
    while i < cells.len()
        invariant
            i <= cells@.len(),
            rgba@.len() == w * h * 4,
            rgba@ == plot_cells_spec(orig, w as int, h as int, cells@.take(i as int), color@),
        decreases cells@.len() - i,
    {
        let (x, y) = cells[i];
        proof {
            lemma_plot_fits(rgba@, w as int, h as int, x as int, y as int, color@);
        }
        plot(rgba.as_mut_slice(), w, h, x, y, color);
        assert(cells@.take(i + 1).drop_last() =~= cells@.take(i as int));
        i = i + 1;
    }
    assert(cells@.take(cells@.len() as int) =~= cells@);
}

/// Build the RGBA canvas preview of `w` x `h` cells: fill cells in grey,
/// text cells in black, and the bounding box of every snippet outlined, the
/// selected one in a stronger blue.
pub fn preview_rgba(
    w: usize,
    h: usize,
    fill_cells: &[(i32, i32)],
    text_cells: &[(i32, i32)],
    bboxes: &[(i32, i32, i32, i32)],
    selected: Option<usize>,
) -> (rgba: Vec<u8>)
    requires
        w * h * 4 <= usize::MAX,
        forall|i: int|
            0 <= i < bboxes@.len() ==> rect_edges_fit(
                (#[trigger] bboxes@[i]).0,
                bboxes@[i].1,
                bboxes@[i].2,
                bboxes@[i].3,
            ),
    ensures
        rgba@ == preview_spec(w as int, h as int, fill_cells@, text_cells@, bboxes@, selected),
{
    proof {
        assert(0 <= w * h * 4) by (nonlinear_arith);
    }
    let len = w * h * 4;
    let mut rgba = vec![255u8; len];
    assert forall|i: int| 0 <= i < rgba@.len() implies rgba@[i] == 255u8 by {
        assert(cloned(255u8, rgba@[i]));
    }
    assert(rgba@ =~= Seq::new((w * h * 4) as nat, |i: int| 255u8));
    let grey: [u8; 4] = [180, 180, 180, 255];
    let black: [u8; 4] = [0, 0, 0, 255];
    assert(grey@ =~= seq![180u8, 180u8, 180u8, 255u8]);
    assert(black@ =~= seq![0u8, 0u8, 0u8, 255u8]);
    plot_cells(&mut rgba, w, h, fill_cells, grey);
    plot_cells(&mut rgba, w, h, text_cells, black);
    let ghost with_text = rgba@;
    let mut i: usize = 0;
    while i < bboxes.len()
        invariant
            i <= bboxes@.len(),
            rgba@.len() == w * h * 4,
            forall|i: int|
                0 <= i < bboxes@.len() ==> rect_edges_fit(
                    (#[trigger] bboxes@[i]).0,
                    bboxes@[i].1,
                    bboxes@[i].2,
                    bboxes@[i].3,
                ),
            rgba@ == draw_boxes_spec(with_text, w as int, h as int, bboxes@.take(i as int), selected),
        decreases bboxes@.len() - i,
    {
        let (x0, y0, x1, y1) = bboxes[i];
        let color: [u8; 4] = if selected == Some(i) {
            [0, 120, 255, 255]
        } else {
            [120, 180, 230, 255]
        };
        assert(color@ =~= box_color(i as int, selected));
        assert(rect_edges_fit(bboxes@[i as int].0, bboxes@[i as int].1, bboxes@[i as int].2, bboxes@[i as int].3));
        draw_rect(rgba.as_mut_slice(), w, h, x0, y0, x1, y1, color);
        assert(bboxes@.take(i + 1).drop_last() =~= bboxes@.take(i as int));
        i = i + 1;
    }
    assert(bboxes@.take(bboxes@.len() as int) =~= bboxes@);
    rgba
}

/// Byte `k` of RGBA pixel `(x, y)` of a canvas `w` pixels wide.
pub open spec fn rgba_byte(buf: Seq<u8>, w: int, x: int, y: int, k: int) -> u8 {
    buf[pixel_offset(w, x, y, 4) + k]
}

proof fn lemma_rgba_offsets(w: int, h: int, px: int, py: int, k: int, x: int, y: int, j: int)
    requires
        0 <= px < w,
        0 <= x < w,
        0 <= py < h,
        0 <= y < h,
        0 <= k < 4,
        0 <= j < 4,
    ensures
        0 <= pixel_offset(w, px, py, 4) + k < w * h * 4,
        (pixel_offset(w, px, py, 4) + k == pixel_offset(w, x, y, 4) + j) <==> (px == x && py == y
            && k == j),
{
    lemma_cell_index_bounds(w, h, px, py);
    let a = cell_index(w, px, py);
    let b = cell_index(w, x, y);
    assert(0 <= a * 4 + k < w * h * 4) by (nonlinear_arith)
        requires
            0 <= a < w * h,
            0 <= k < 4,
    ;
    if pixel_offset(w, px, py, 4) + k == pixel_offset(w, x, y, 4) + j {
        assert(a == b && k == j) by (nonlinear_arith)
            requires
                a * 4 + k == b * 4 + j,
                0 <= k < 4,
                0 <= j < 4,
        ;
        lemma_cell_index_injective(w, px, py, x, y);
    }
}

proof fn lemma_plot_at(buf: Seq<u8>, w: int, h: int, x: int, y: int, c: Seq<u8>, px: int, py: int, k: int)
    requires
        buf.len() == w * h * 4,
        c.len() == 4,
        0 <= px < w,
        0 <= py < h,
        0 <= k < 4,
    ensures
        plot_spec(buf, w, h, x, y, c).len() == buf.len(),
        rgba_byte(plot_spec(buf, w, h, x, y, c), w, px, py, k) == if px == x && py == y {
            c[k]
        } else {
            rgba_byte(buf, w, px, py, k)
        },
{
    if 0 <= x < w && 0 <= y < h {
        lemma_pixel_offset_bounds(w, h, x, y, 4);
        lemma_rgba_offsets(w, h, px, py, k, x, y, 0);
        lemma_rgba_offsets(w, h, px, py, k, x, y, 1);
        lemma_rgba_offsets(w, h, px, py, k, x, y, 2);
        lemma_rgba_offsets(w, h, px, py, k, x, y, 3);
    }
}

proof fn lemma_hlines_at(
    buf: Seq<u8>,
    w: int,
    h: int,
    x: int,
    x1: int,
    y0: int,
    y1: int,
    c: Seq<u8>,
    px: int,
    py: int,
    k: int,
)
    requires
        buf.len() == w * h * 4,
        c.len() == 4,
        0 <= px < w,
        0 <= py < h,
        0 <= k < 4,
    ensures
        draw_hlines(buf, w, h, x, x1, y0, y1, c).len() == buf.len(),
        rgba_byte(draw_hlines(buf, w, h, x, x1, y0, y1, c), w, px, py, k) == if x <= px < x1 && (py
            == y0 || py == y1 - 1) {
            c[k]
        } else {
            rgba_byte(buf, w, px, py, k)
        },
    decreases x1 - x,
{
    if x < x1 {
        lemma_plot_at(buf, w, h, x, y0, c, px, py, k);
        let b1 = plot_spec(buf, w, h, x, y0, c);
        lemma_plot_at(b1, w, h, x, y1 - 1, c, px, py, k);
        let b2 = plot_spec(b1, w, h, x, y1 - 1, c);
        lemma_hlines_at(b2, w, h, x + 1, x1, y0, y1, c, px, py, k);
    }
}

proof fn lemma_vlines_at(
    buf: Seq<u8>,
    w: int,
    h: int,
    y: int,
    y1: int,
    x0: int,
    x1: int,
    c: Seq<u8>,
    px: int,
    py: int,
    k: int,
)
    requires
        buf.len() == w * h * 4,
        c.len() == 4,
        0 <= px < w,
        0 <= py < h,
        0 <= k < 4,
    ensures
        draw_vlines(buf, w, h, y, y1, x0, x1, c).len() == buf.len(),
        rgba_byte(draw_vlines(buf, w, h, y, y1, x0, x1, c), w, px, py, k) == if y <= py < y1 && (px
            == x0 || px == x1 - 1) {
            c[k]
        } else {
            rgba_byte(buf, w, px, py, k)
        },
    decreases y1 - y,
{
    if y < y1 {
        lemma_plot_at(buf, w, h, x0, y, c, px, py, k);
        let b1 = plot_spec(buf, w, h, x0, y, c);
        lemma_plot_at(b1, w, h, x1 - 1, y, c, px, py, k);
        let b2 = plot_spec(b1, w, h, x1 - 1, y, c);
        lemma_vlines_at(b2, w, h, y + 1, y1, x0, x1, c, px, py, k);
    }
}

/// Pixel `(x, y)` lies on the one-pixel outline of box `b` (its corners
/// `(b.0, b.1)` and `(b.2, b.3)`, the latter exclusive).
pub open spec fn on_outline(b: (i32, i32, i32, i32), x: int, y: int) -> bool {
    ||| (b.0 <= x < b.2 && (y == b.1 || y == b.3 - 1))
    ||| (b.1 <= y < b.3 && (x == b.0 || x == b.2 - 1))
}

/// The outline colour of pixel `(x, y)`: that of the last box whose outline
/// passes through it, or none.
pub open spec fn outline_color_at(
    boxes: Seq<(i32, i32, i32, i32)>,
    selected: Option<usize>,
    x: int,
    y: int,
) -> Option<Seq<u8>>
    decreases boxes.len(),
{
    if boxes.len() == 0 {
        None
    } else if on_outline(boxes.last(), x, y) {
        Some(box_color(boxes.len() - 1, selected))
    } else {
        outline_color_at(boxes.drop_last(), selected, x, y)
    }
}

proof fn lemma_boxes_at(
    buf: Seq<u8>,
    w: int,
    h: int,
    boxes: Seq<(i32, i32, i32, i32)>,
    selected: Option<usize>,
    px: int,
    py: int,
    k: int,
)
    requires
        buf.len() == w * h * 4,
        0 <= px < w,
        0 <= py < h,
        0 <= k < 4,
    ensures
        draw_boxes_spec(buf, w, h, boxes, selected).len() == buf.len(),
        rgba_byte(draw_boxes_spec(buf, w, h, boxes, selected), w, px, py, k) == match
            outline_color_at(boxes, selected, px, py) {
            Some(c) => c[k],
            None => rgba_byte(buf, w, px, py, k),
        },
    decreases boxes.len(),
{
    if boxes.len() > 0 {
        let b = boxes.last();
        lemma_boxes_at(buf, w, h, boxes.drop_last(), selected, px, py, k);
        let mid = draw_boxes_spec(buf, w, h, boxes.drop_last(), selected);
        let c = box_color(boxes.len() - 1, selected);
        lemma_hlines_at(mid, w, h, b.0 as int, b.2 as int, b.1 as int, b.3 as int, c, px, py, k);
        let hl = draw_hlines(mid, w, h, b.0 as int, b.2 as int, b.1 as int, b.3 as int, c);
        lemma_vlines_at(hl, w, h, b.1 as int, b.3 as int, b.0 as int, b.2 as int, c, px, py, k);
    }
}

proof fn lemma_plot_cells_at(
    buf: Seq<u8>,
    w: int,
    h: int,
    cells: Seq<(i32, i32)>,
    c: Seq<u8>,
    px: int,
    py: int,
    k: int,
)
    requires
        buf.len() == w * h * 4,
        c.len() == 4,
        0 <= px < w,
        0 <= py < h,
        0 <= k < 4,
    ensures
        plot_cells_spec(buf, w, h, cells, c).len() == buf.len(),
        rgba_byte(plot_cells_spec(buf, w, h, cells, c), w, px, py, k) == if exists|j: int|
            0 <= j < cells.len() && (#[trigger] cells[j]).0 == px && cells[j].1 == py {
            c[k]
        } else {
            rgba_byte(buf, w, px, py, k)
        },
    decreases cells.len(),
{
    if cells.len() > 0 {
        let front = cells.drop_last();
        lemma_plot_cells_at(buf, w, h, front, c, px, py, k);
        let mid = plot_cells_spec(buf, w, h, front, c);
        lemma_plot_at(mid, w, h, cells.last().0 as int, cells.last().1 as int, c, px, py, k);
        if exists|j: int| 0 <= j < cells.len() && (#[trigger] cells[j]).0 == px && cells[j].1 == py {
            let j = choose|j: int| 0 <= j < cells.len() && (#[trigger] cells[j]).0 == px && cells[j].1 == py;
            if j < front.len() {
                assert(front[j] == cells[j]);
            }
        }
        if exists|j: int| 0 <= j < front.len() && (#[trigger] front[j]).0 == px && front[j].1 == py {
            let j = choose|j: int| 0 <= j < front.len() && (#[trigger] front[j]).0 == px && front[j].1 == py;
            assert(cells[j] == front[j]);
        }
    }
}

/// What the canvas preview shows at cell `(x, y)`: the colour of the last
/// snippet box whose outline passes through it (strong blue for the
/// selected snippet, light blue otherwise); elsewhere black for a text
/// cell, grey for a fill cell, and white for the rest.
pub proof fn lemma_preview_pixel(
    w: int,
    h: int,
    fill: Seq<(i32, i32)>,
    text: Seq<(i32, i32)>,
    boxes: Seq<(i32, i32, i32, i32)>,
    selected: Option<usize>,
    x: int,
    y: int,
    k: int,
)
    requires
        0 <= x < w,
        0 <= y < h,
        0 <= k < 4,
    ensures
        ({
            let img = preview_spec(w, h, fill, text, boxes, selected);
            &&& img.len() == w * h * 4
            &&& rgba_byte(img, w, x, y, k) == match outline_color_at(boxes, selected, x, y) {
                Some(c) => c[k],
                None => if exists|j: int|
                    0 <= j < text.len() && (#[trigger] text[j]).0 == x && text[j].1 == y {
                    seq![0u8, 0u8, 0u8, 255u8][k]
                } else if exists|j: int|
                    0 <= j < fill.len() && (#[trigger] fill[j]).0 == x && fill[j].1 == y {
                    seq![180u8, 180u8, 180u8, 255u8][k]
                } else {
                    255u8
                },
            }
        }),
{
    assert(0 <= w * h * 4) by (nonlinear_arith)
        requires
            0 <= w,
            0 <= h,
    ;
    let white = Seq::new((w * h * 4) as nat, |i: int| 255u8);
    let grey = seq![180u8, 180u8, 180u8, 255u8];
    let black = seq![0u8, 0u8, 0u8, 255u8];
    lemma_plot_cells_at(white, w, h, fill, grey, x, y, k);
    let with_fill = plot_cells_spec(white, w, h, fill, grey);
    lemma_plot_cells_at(with_fill, w, h, text, black, x, y, k);
    let with_text = plot_cells_spec(with_fill, w, h, text, black);
    lemma_boxes_at(with_text, w, h, boxes, selected, x, y, k);
    lemma_rgba_offsets(w, h, x, y, k, x, y, k);
}

} // verus!
