//! GDSII output: text and fill as merged boundaries on metal layers, as
//! plain values (boundaries, cell references, cells, libraries).
use vstd::prelude::*;
use crate::bitmap::{Bitmap, BitmapView, MergedRegion, Rect, runs, is_run, runs_of, lit_pixels, as_pixel, rect_covers, lemma_runs_partition, row_major_before};
use crate::config::LayerConfig;
use crate::fill::{FillConfig, fill_config_ok, fill_cells, chosen_fill, compute_fill_cells, lemma_fill_cells_legal, exclusion_radius, near_used};

verus! {

/// A closed polygon on one GDS layer; coordinates in database units (nm).
#[derive(Debug)]
pub struct Boundary {
    pub layer: i16,
    pub datatype: i16,
    pub xy: Vec<(i32, i32)>,
}

/// A placement of a named cell at `(x, y)`.
#[derive(Debug)]
pub struct CellRef {
    pub name: String,
    pub x: i32,
    pub y: i32,
}

/// One element of a cell.
#[derive(Debug)]
pub enum Element {
    Boundary(Boundary),
    CellRef(CellRef),
}

/// A named GDS cell (structure).
#[derive(Debug)]
pub struct Cell {
    pub name: String,
    pub elems: Vec<Element>,
}

/// A GDS library: a name and its cells.
#[derive(Debug)]
pub struct Library {
    pub name: String,
    pub cells: Vec<Cell>,
}

pub struct BoundaryView {
    pub layer: i16,
    pub datatype: i16,
    pub xy: Seq<(i32, i32)>,
}

pub enum ElementView {
    Boundary(BoundaryView),
    CellRef { name: Seq<char>, x: i32, y: i32 },
}

pub struct CellView {
    pub name: Seq<char>,
    pub elems: Seq<ElementView>,
}

pub struct LibraryView {
    pub name: Seq<char>,
    pub cells: Seq<CellView>,
}

impl View for Boundary {
    type V = BoundaryView;

    open spec fn view(&self) -> BoundaryView {
        BoundaryView { layer: self.layer, datatype: self.datatype, xy: self.xy@ }
    }
}

impl View for Element {
    type V = ElementView;

    open spec fn view(&self) -> ElementView {
        match self {
            Element::Boundary(b) => ElementView::Boundary(b@),
            Element::CellRef(r) => ElementView::CellRef { name: r.name@, x: r.x, y: r.y },
        }
    }
}

impl View for Cell {
    type V = CellView;

    open spec fn view(&self) -> CellView {
        CellView { name: self.name@, elems: self.elems@.map_values(|e: Element| e@) }
    }
}

impl View for Library {
    type V = LibraryView;

    open spec fn view(&self) -> LibraryView {
        LibraryView { name: self.name@, cells: self.cells@.map_values(|c: Cell| c@) }
    }
}

pub open spec fn fits_i32(v: int) -> bool {
    i32::MIN <= v <= i32::MAX
}

/// The arithmetic of a rectangle boundary at cell `(gx, gy)` spanning
/// `w` x `h` cells of `grid` nm stays within 32-bit coordinates.
pub open spec fn rect_fits(gx: int, gy: int, w: int, h: int, grid: int) -> bool {
    &&& fits_i32(gx * grid)
    &&& fits_i32(gy * grid)
    &&& fits_i32(w * grid)
    &&& fits_i32(h * grid)
    &&& fits_i32(gx * grid + w * grid)
    &&& fits_i32(gy * grid + h * grid)
}

/// The closed outline (five points, the first repeated last) of the
/// rectangle at cell `(gx, gy)` spanning `w` x `h` cells of `grid` nm.
pub open spec fn rect_outline(gx: int, gy: int, w: int, h: int, grid: int) -> Seq<(i32, i32)> {
    let x0 = (gx * grid) as i32;
    let y0 = (gy * grid) as i32;
    let x1 = (gx * grid + w * grid) as i32;
    let y1 = (gy * grid + h * grid) as i32;
    seq![(x0, y0), (x1, y0), (x1, y1), (x0, y1), (x0, y0)]
}

/// Build a rectangular boundary at grid-cell origin `(gx, gy)` spanning
/// `w_cells` x `h_cells` cells, each cell being `grid_nm` nanometres.
pub fn rect_boundary(
    gx: i32,
    gy: i32,
    w_cells: i32,
    h_cells: i32,
    grid_nm: i32,
    layer: i16,
    datatype: i16,
) -> (b: Boundary)
    requires
        rect_fits(gx as int, gy as int, w_cells as int, h_cells as int, grid_nm as int),
    ensures
        b@ == (BoundaryView {
            layer,
            datatype,
            xy: rect_outline(gx as int, gy as int, w_cells as int, h_cells as int, grid_nm as int),
        }),
{
    let x0 = gx * grid_nm;
    let y0 = gy * grid_nm;
    let x1 = x0 + w_cells * grid_nm;
    let y1 = y0 + h_cells * grid_nm;
    let mut xy: Vec<(i32, i32)> = Vec::new();
    xy.push((x0, y0));
    xy.push((x1, y0));
    xy.push((x1, y1));
    xy.push((x0, y1));
    xy.push((x0, y0));
    let b = Boundary { layer, datatype, xy };
    assert(b.xy@ =~= rect_outline(
        gx as int,
        gy as int,
        w_cells as int,
        h_cells as int,
        grid_nm as int,
    ));
    b
}

/// Point `(x, y)` of a polygon in canvas cells, moved by `(ox, oy)` and
/// with `y` flipped against a canvas `canvas_h` cells high, stays within
/// 32-bit coordinates once scaled to nanometres.
pub open spec fn polygon_point_fits(
    p: (i32, i32),
    ox: int,
    oy: int,
    canvas_h: int,
    grid: int,
) -> bool {
    &&& fits_i32(ox + p.0)
    &&& fits_i32((ox + p.0) * grid)
    &&& fits_i32(oy + p.1)
    &&& fits_i32(canvas_h - (oy + p.1))
    &&& fits_i32((canvas_h - (oy + p.1)) * grid)
}

/// The GDS point (nm, y up) of canvas point `p` moved by `(ox, oy)`.
pub open spec fn polygon_point(p: (i32, i32), ox: int, oy: int, canvas_h: int, grid: int) -> (
    i32,
    i32,
) {
    (((ox + p.0) * grid) as i32, ((canvas_h - (oy + p.1)) * grid) as i32)
}

/// The outline of a polygon: its points converted, closed by repeating the
/// first point when the last differs from it.
pub open spec fn polygon_outline(
    pts: Seq<(i32, i32)>,
    ox: int,
    oy: int,
    canvas_h: int,
    grid: int,
) -> Seq<(i32, i32)> {
    let m = pts.map_values(|p: (i32, i32)| polygon_point(p, ox, oy, canvas_h, grid));
    if m.len() > 0 && m[0] != m[m.len() - 1] {
        m.push(m[0])
    } else {
        m
    }
}

/// Build a boundary from a closed polygon in canvas cell coordinates. The
/// polygon's Y is flipped to match the GDS bottom-left convention, and the
/// result is moved by `(ox, oy)` in cells.
pub fn polygon_boundary(
    pts: &[(i32, i32)],
    ox: i32,
    oy: i32,
    canvas_h: i32,
    grid_nm: i32,
    layer: i16,
    datatype: i16,
) -> (b: Boundary)
    requires
        forall|i: int|
            0 <= i < pts@.len() ==> polygon_point_fits(
                #[trigger] pts@[i],
                ox as int,
                oy as int,
                canvas_h as int,
                grid_nm as int,
            ),
    ensures
        b@ == (BoundaryView {
            layer,
            datatype,
            xy: polygon_outline(pts@, ox as int, oy as int, canvas_h as int, grid_nm as int),
        }),
{
    let ghost m = pts@.map_values(
        |p: (i32, i32)| polygon_point(p, ox as int, oy as int, canvas_h as int, grid_nm as int),
    );
    let n = pts.len();
    let mut xy: Vec<(i32, i32)> = Vec::new();
    let mut i: usize = 0;
    while i < n
        invariant
            n == pts@.len(),
            i <= n,
            m == pts@.map_values(
                |p: (i32, i32)|
                    polygon_point(p, ox as int, oy as int, canvas_h as int, grid_nm as int),
            ),
            forall|k: int|
                0 <= k < pts@.len() ==> polygon_point_fits(
                    #[trigger] pts@[k],
                    ox as int,
                    oy as int,
                    canvas_h as int,
                    grid_nm as int,
                ),
            xy@ == m.take(i as int),
        decreases n - i,
    {
        let (x, y) = pts[i];
        assert(polygon_point_fits(pts@[i as int], ox as int, oy as int, canvas_h as int, grid_nm as int));
        let cx = (ox + x) * grid_nm;
        let cy = (canvas_h - (oy + y)) * grid_nm;
        xy.push((cx, cy));
        assert(m.take(i + 1) =~= m.take(i as int).push(m[i as int]));
        i = i + 1;
    }
    assert(m.take(n as int) =~= m);
    if n > 0 {
        let first = xy[0];
        let last = xy[n - 1];
        if first.0 != last.0 || first.1 != last.1 {
            xy.push(first);
        }
    }
    Boundary { layer, datatype, xy }
}

/// A merged rectangle of text in canvas cell coordinates (Y down).
#[derive(Debug, Clone, Copy, PartialEq, Eq)]
pub struct SnippetRect {
    /// Rectangle in canvas cell coordinates.
    pub rect: Rect,
}

/// A rendered (and rotated) text bitmap with its top-left cell on the
/// canvas.
pub struct PlacedBitmap {
    pub bitmap: Bitmap,
    pub ox: i32,
    pub oy: i32,
}

/// Every lit pixel of the placed bitmap, and its canvas position, has
/// 32-bit coordinates.
pub open spec fn placement_fits(pb: PlacedBitmap) -> bool {
    &&& pb.bitmap.valid()
    &&& forall|p: (int, int)| #[trigger]
        pb.bitmap@.on.contains(p) ==> p.0 <= i32::MAX && p.1 <= i32::MAX && pb.ox + p.0
            <= i32::MAX && pb.oy + p.1 <= i32::MAX
}

/// Every lit pixel of the placed bitmap lands at canvas coordinates
/// `x, y >= 0`; the bitmap itself may start left of or above the canvas.
pub open spec fn lands_on_canvas(pb: PlacedBitmap) -> bool {
    forall|p: (int, int)| #[trigger]
        pb.bitmap@.on.contains(p) ==> pb.ox + p.0 >= 0 && pb.oy + p.1 >= 0
}

pub open spec fn clamp_to_zero(v: int) -> int {
    if v < 0 {
        0
    } else {
        v
    }
}

/// Run `r` of a bitmap placed at `(ox, oy)`, in canvas cells; coordinates
/// left of or above the canvas are clamped to its edge.
pub open spec fn place_rect(ox: int, oy: int, r: Rect) -> SnippetRect {
    SnippetRect {
        rect: Rect {
            x: clamp_to_zero(ox + r.x) as u32,
            y: clamp_to_zero(oy + r.y) as u32,
            w: r.w,
            h: r.h,
        },
    }
}

/// The runs of one placed bitmap in canvas cells.
pub open spec fn placed_rects(pb: PlacedBitmap) -> Seq<SnippetRect> {
    place_runs(pb.ox as int, pb.oy as int, runs(pb.bitmap@))
}

/// Runs `rs` of a bitmap placed at `(ox, oy)`, in canvas cells.
pub open spec fn place_runs(ox: int, oy: int, rs: Seq<Rect>) -> Seq<SnippetRect> {
    rs.map_values(|r: Rect| place_rect(ox, oy, r))
}

/// The runs of all placed bitmaps, in order.
pub open spec fn text_rects(ps: Seq<PlacedBitmap>) -> Seq<SnippetRect>
    decreases ps.len(),
{
    if ps.len() == 0 {
        Seq::empty()
    } else {
        text_rects(ps.drop_last()) + placed_rects(ps.last())
    }
}

/// The cells of `r` stay within unsigned 32-bit coordinates.
pub open spec fn rect_span_fits(r: Rect) -> bool {
    r.w > 0 && r.h > 0 ==> r.x + r.w - 1 <= u32::MAX && r.y + r.h - 1 <= u32::MAX
}

/// Cells `(x + dx', y + dy)` of row `dy` of `r`, for `dx' >= dx`.
pub open spec fn rect_row_cells(r: Rect, dy: int, dx: int) -> Seq<(i32, i32)>
    decreases r.w - dx,
{
    if dx >= r.w {
        Seq::empty()
    } else {
        seq![((r.x + dx) as i32, (r.y + dy) as i32)] + rect_row_cells(r, dy, dx + 1)
    }
}

/// Cells of the rows `dy' >= dy` of `r`, row by row.
pub open spec fn rect_rows_cells(r: Rect, dy: int) -> Seq<(i32, i32)>
    decreases r.h - dy,
{
    if dy >= r.h {
        Seq::empty()
    } else {
        rect_row_cells(r, dy, 0) + rect_rows_cells(r, dy + 1)
    }
}

/// All cells of the rectangles, rectangle by rectangle, row by row.
pub open spec fn rects_cells(rs: Seq<SnippetRect>) -> Seq<(i32, i32)>
    decreases rs.len(),
{
    if rs.len() == 0 {
        Seq::empty()
    } else {
        rects_cells(rs.drop_last()) + rect_rows_cells(rs.last().rect, 0)
    }
}

/// Place the runs of every bitmap on the canvas: each rendered, rotated
/// snippet contributes its merged rectangles, moved by its position.
pub fn collect_text_rects(placed: &[PlacedBitmap]) -> (out: Vec<SnippetRect>)
    requires
        forall|k: int| 0 <= k < placed@.len() ==> placement_fits(#[trigger] placed@[k]),
    ensures
        out@ == text_rects(placed@),
        forall|i: int| 0 <= i < out@.len() ==> rect_span_fits((#[trigger] out@[i]).rect),
{
    let mut out: Vec<SnippetRect> = Vec::new();
    let n = placed.len();
    let mut k: usize = 0;
    while k < n
        invariant
            n == placed@.len(),
            k <= n,
            forall|k: int| 0 <= k < placed@.len() ==> placement_fits(#[trigger] placed@[k]),
            out@ == text_rects(placed@.take(k as int)),
            forall|i: int| 0 <= i < out@.len() ==> rect_span_fits((#[trigger] out@[i]).rect),
        decreases n - k,
    {
        let pb = &placed[k];
        assert(placement_fits(*pb));
        let rects = pb.bitmap.to_rectangles();
        let ghost start = out@;
        let ghost v = pb.bitmap@;
        proof {
            pb.bitmap.lemma_wf();
        }
        let m = rects.len();
        let mut i: usize = 0;
        while i < m
            invariant
                m == rects@.len(),
                i <= m,
                rects@ == runs(v),
                runs_of(v, rects@),
                v.wf(),
                v == pb.bitmap@,
                placement_fits(*pb),
                out@ == start + rects@.take(i as int).map_values(
                    |r: Rect| place_rect(pb.ox as int, pb.oy as int, r),
                ),
                forall|i: int| 0 <= i < out@.len() ==> rect_span_fits((#[trigger] out@[i]).rect),
            decreases m - i,
        {
            let r = rects[i];
            assert(is_run(v.on, rects@[i as int]));
            assert(v.on.contains((r.x + 0, r.y as int)));
            assert(v.on.contains((r.x + (r.w - 1), r.y as int)));
            let gx = pb.ox + r.x as i32;
            let gy = pb.oy + r.y as i32;
            let x = if gx < 0 {
                0
            } else {
                gx
            };
            let y = if gy < 0 {
                0
            } else {
                gy
            };
            let sr = SnippetRect { rect: Rect { x: x as u32, y: y as u32, w: r.w, h: r.h } };
            assert(sr == place_rect(pb.ox as int, pb.oy as int, r));
            out.push(sr);
            assert(rects@.take(i + 1) =~= rects@.take(i as int).push(r));
            assert(out@ =~= start + rects@.take(i + 1).map_values(
                |r: Rect| place_rect(pb.ox as int, pb.oy as int, r),
            ));
            i = i + 1;
        }
        assert(rects@.take(m as int) =~= rects@);
        assert(placed@.take(k + 1).drop_last() =~= placed@.take(k as int));
        k = k + 1;
    }
    assert(placed@.take(n as int) =~= placed@);
    out
}

/// Expand the merged rectangles back into a dense list of `(gx, gy)` cells,
/// rectangle by rectangle, row by row.
pub fn rects_to_cells(rects: &[SnippetRect]) -> (cells: Vec<(i32, i32)>)
    requires
        forall|i: int| 0 <= i < rects@.len() ==> rect_span_fits((#[trigger] rects@[i]).rect),
    ensures
        cells@ == rects_cells(rects@),
{
    let mut cells: Vec<(i32, i32)> = Vec::new();
    let n = rects.len();
    let mut k: usize = 0;
    while k < n
        invariant
            n == rects@.len(),
            k <= n,
            forall|i: int| 0 <= i < rects@.len() ==> rect_span_fits((#[trigger] rects@[i]).rect),
            cells@ == rects_cells(rects@.take(k as int)),
        decreases n - k,
    {
        let r = rects[k].rect;
        assert(rect_span_fits(rects@[k as int].rect));
        let ghost start = cells@;
        let mut dy: u32 = 0;
        while dy < r.h
            invariant
                rect_span_fits(r),
                dy <= r.h,
                cells@ + rect_rows_cells(r, dy as int) == start + rect_rows_cells(r, 0),
            decreases r.h - dy,
        {
            let ghost row_start = cells@;
            let mut dx: u32 = 0;
            while dx < r.w
                invariant
                    rect_span_fits(r),
                    dy < r.h,
                    dx <= r.w,
                    cells@ + rect_row_cells(r, dy as int, dx as int) == row_start
                        + rect_row_cells(r, dy as int, 0),
                decreases r.w - dx,
            {
                let ghost before = cells@;
                cells.push(((r.x + dx) as i32, (r.y + dy) as i32));
                assert(before + rect_row_cells(r, dy as int, dx as int) =~= cells@
                    + rect_row_cells(r, dy as int, dx + 1));
                dx = dx + 1;
            }
            assert(cells@ =~= row_start + rect_row_cells(r, dy as int, 0));
            assert(row_start + rect_rows_cells(r, dy as int) =~= cells@ + rect_rows_cells(
                r,
                dy + 1,
            ));
            dy = dy + 1;
        }
        assert(cells@ =~= start + rect_rows_cells(r, 0));
        assert(rects@.take(k + 1).drop_last() =~= rects@.take(k as int));
        k = k + 1;
    }
    assert(rects@.take(n as int) =~= rects@);
    cells
}

/// The cells covered by the text of all placed bitmaps, as used for the
/// preview and for the dummy-fill exclusion.
pub fn collect_text_cells(placed: &[PlacedBitmap]) -> (cells: Vec<(i32, i32)>)
    requires
        forall|k: int| 0 <= k < placed@.len() ==> placement_fits(#[trigger] placed@[k]),
    ensures
        cells@ == rects_cells(text_rects(placed@)),
{
    rects_to_cells(&collect_text_rects(placed))
}

/// The element views of a list of elements.
pub open spec fn element_views(s: Seq<Element>) -> Seq<ElementView> {
    s.map_values(|e: Element| e@)
}

/// Every lit pixel of the placed bitmap, moved onto a canvas `canvas_h`
/// cells high with Y flipped and scaled by `grid` nm, keeps its outline
/// within 32-bit coordinates.
pub open spec fn text_fits(pb: PlacedBitmap, canvas_h: int, grid: int) -> bool {
    text_fits_at(pb.bitmap, pb.ox as int, pb.oy as int, canvas_h, grid)
}

/// Lit pixel `p` of a bitmap placed with its top-left cell at `(ox, oy)`
/// keeps the coordinates of its outline within 32 bits.
pub open spec fn pixel_fits(p: (int, int), ox: int, oy: int, canvas_h: int, grid: int) -> bool {
    let gx = ox + p.0;
    let gy = oy + p.1;
    &&& p.0 <= i32::MAX
    &&& p.1 <= i32::MAX
    &&& fits_i32(gx)
    &&& fits_i32(gy)
    &&& fits_i32(gx * grid)
    &&& fits_i32((gx + 1) * grid)
    &&& fits_i32(canvas_h - gy)
    &&& fits_i32(canvas_h - gy - 1)
    &&& fits_i32((canvas_h - gy - 1) * grid)
    &&& fits_i32((canvas_h - gy) * grid)
}

/// `text_fits` for bitmap `b` placed with its top-left cell at `(ox, oy)`.
pub open spec fn text_fits_at(b: Bitmap, ox: int, oy: int, canvas_h: int, grid: int) -> bool {
    &&& b.valid()
    &&& b@.width <= i32::MAX
    &&& fits_i32(b@.width * grid)
    &&& forall|p: (int, int)| #[trigger]
        b@.on.contains(p) ==> pixel_fits(p, ox, oy, canvas_h, grid)
}

proof fn lemma_small_product(a: int, b: int)
    requires
        -0x4_0000_0000 <= a <= 0x4_0000_0000,
        -0x8000_0000 <= b <= 0x8000_0000,
    ensures
        -0x2_0000_0000_0000_0000 <= a * b <= 0x2_0000_0000_0000_0000,
{
    assert(-0x2_0000_0000_0000_0000 <= a * b <= 0x2_0000_0000_0000_0000) by (nonlinear_arith)
        requires
            -0x4_0000_0000 <= a <= 0x4_0000_0000,
            -0x8000_0000 <= b <= 0x8000_0000,
    ;
}

fn i128_fits_i32(v: i128) -> (r: bool)
    ensures
        r == fits_i32(v as int),
{
    -2147483648i128 <= v && v <= 2147483647i128
}

/// Whether lit pixel `(x, y)` of a bitmap placed at `(ox, oy)` keeps its
/// outline within 32-bit coordinates.
fn pixel_fits_holds(x: u32, y: u32, ox: i32, oy: i32, canvas_h: i32, grid: i32) -> (r: bool)
    ensures
        r == pixel_fits((x as int, y as int), ox as int, oy as int, canvas_h as int, grid as int),
{
    let gx = ox as i128 + x as i128;
    let gy = oy as i128 + y as i128;
    let g = grid as i128;
    let h = canvas_h as i128;
    if !(x <= 2147483647u32 && y <= 2147483647u32 && i128_fits_i32(gx) && i128_fits_i32(gy)) {
        return false;
    }
    proof {
        assert(fits_i32(gx as int) && fits_i32(gy as int));
    }
    proof {
        lemma_small_product(gx as int, g as int);
        lemma_small_product(gx + 1, g as int);
        lemma_small_product(h - gy - 1, g as int);
        lemma_small_product(h - gy, g as int);
    }
    let a = gx * g;
    let b = (gx + 1) * g;
    let c = h - gy;
    let d = h - gy - 1;
    let e = (h - gy - 1) * g;
    let f = (h - gy) * g;
    i128_fits_i32(a) && i128_fits_i32(b) && i128_fits_i32(c) && i128_fits_i32(d) && i128_fits_i32(
        e,
    ) && i128_fits_i32(f)
}

/// Whether every lit pixel of `b`, placed with its top-left cell at
/// `(ox, oy)` on a canvas `canvas_h` cells high, keeps its outline within
/// 32-bit coordinates (the condition `text_fits_at` of the GDS builders).
pub fn text_fits_holds(b: &Bitmap, ox: i32, oy: i32, canvas_h: i32, grid: i32) -> (r: bool)
    requires
        b.valid(),
    ensures
        r == text_fits_at(*b, ox as int, oy as int, canvas_h as int, grid as int),
{
    let w = b.width() as i128;
    let g = grid as i128;
    proof {
        assert(-0x1_0000_0000 * 0x1_0000_0000 <= w * g <= 0x1_0000_0000 * 0x1_0000_0000)
            by (nonlinear_arith)
            requires
                0 <= w <= 0xffff_ffff,
                -0x8000_0000 <= g <= 0x7fff_ffff,
        ;
    }
    let wg = w * g;
    if !(b.width() <= 2147483647u32 && i128_fits_i32(wg)) {
        return false;
    }
    let on = b.iter_on();
    let mut i: usize = 0;
    while i < on.len()
        invariant
            i <= on@.len(),
            forall|k: int| 0 <= k < on@.len() ==> b@.on.contains(as_pixel(#[trigger] on@[k])),
            forall|k: int|
                0 <= k < i ==> pixel_fits(
                    as_pixel(#[trigger] on@[k]),
                    ox as int,
                    oy as int,
                    canvas_h as int,
                    grid as int,
                ),
        decreases on@.len() - i,
    {
        let (x, y) = on[i];
        if !pixel_fits_holds(x, y, ox, oy, canvas_h, grid) {
            assert(b@.on.contains(as_pixel(on@[i as int])));
            return false;
        }
        i = i + 1;
    }
    assert forall|p: (int, int)| #[trigger]
        b@.on.contains(p) implies pixel_fits(p, ox as int, oy as int, canvas_h as int, grid as int) by {
        let k = choose|k: int| 0 <= k < on@.len() && as_pixel(#[trigger] on@[k]) == p;
    }
    true
}

/// Whether every lit pixel of the placed bitmap, and its canvas position,
/// has 32-bit coordinates (the condition `placement_fits` of the text
/// collectors).
pub fn placement_fits_holds(pb: &PlacedBitmap) -> (r: bool)
    requires
        pb.bitmap.valid(),
    ensures
        r == placement_fits(*pb),
{
    let on = pb.bitmap.iter_on();
    let mut i: usize = 0;
    while i < on.len()
        invariant
            i <= on@.len(),
            forall|k: int|
                0 <= k < on@.len() ==> pb.bitmap@.on.contains(as_pixel(#[trigger] on@[k])),
            forall|k: int|
                0 <= k < i ==> {
                    let p = as_pixel(#[trigger] on@[k]);
                    p.0 <= i32::MAX && p.1 <= i32::MAX && pb.ox + p.0 <= i32::MAX && pb.oy + p.1
                        <= i32::MAX
                },
        decreases on@.len() - i,
    {
        let (x, y) = on[i];
        let ok = x <= 2147483647u32 && y <= 2147483647u32 && pb.ox as i64 + x as i64
            <= 2147483647i64 && pb.oy as i64 + y as i64 <= 2147483647i64;
        if !ok {
            assert(pb.bitmap@.on.contains(as_pixel(on@[i as int])));
            return false;
        }
        i = i + 1;
    }
    assert forall|p: (int, int)| #[trigger] pb.bitmap@.on.contains(p) implies p.0 <= i32::MAX && p.1
        <= i32::MAX && pb.ox + p.0 <= i32::MAX && pb.oy + p.1 <= i32::MAX by {
        let k = choose|k: int| 0 <= k < on@.len() && as_pixel(#[trigger] on@[k]) == p;
    }
    true
}

/// The boundary of text run `r` of a bitmap placed at `(ox, oy)`, with the
/// canvas Y flipped to the GDS bottom-left convention.
pub open spec fn text_boundary(
    ox: int,
    oy: int,
    canvas_h: int,
    grid: int,
    layers: LayerConfig,
    r: Rect,
) -> ElementView {
    ElementView::Boundary(
        BoundaryView {
            layer: layers.text_layer,
            datatype: layers.text_datatype,
            xy: rect_outline(ox + r.x, canvas_h - (oy + r.y) - r.h, r.w as int, r.h as int, grid),
        },
    )
}

/// The text boundaries of the runs of `v` placed at `(ox, oy)`.
pub open spec fn bitmap_elements(
    v: BitmapView,
    ox: int,
    oy: int,
    canvas_h: int,
    grid: int,
    layers: LayerConfig,
) -> Seq<ElementView> {
    runs(v).map_values(|r: Rect| text_boundary(ox, oy, canvas_h, grid, layers, r))
}

/// The text boundaries of one placed bitmap.
pub open spec fn placed_elements(
    pb: PlacedBitmap,
    canvas_h: int,
    grid: int,
    layers: LayerConfig,
) -> Seq<ElementView> {
    bitmap_elements(pb.bitmap@, pb.ox as int, pb.oy as int, canvas_h, grid, layers)
}

/// The text boundaries of all placed bitmaps, in order.
pub open spec fn text_elements(
    ps: Seq<PlacedBitmap>,
    canvas_h: int,
    grid: int,
    layers: LayerConfig,
) -> Seq<ElementView>
    decreases ps.len(),
{
    if ps.len() == 0 {
        Seq::empty()
    } else {
        text_elements(ps.drop_last(), canvas_h, grid, layers) + placed_elements(
            ps.last(),
            canvas_h,
            grid,
            layers,
        )
    }
}

/// The canvas cells lit by one placed bitmap, in row-major order.
pub open spec fn placed_used_cells(pb: PlacedBitmap) -> Seq<(i32, i32)> {
    lit_pixels(pb.bitmap@).map_values(
        |c: (u32, u32)| ((pb.ox + c.0) as i32, (pb.oy + c.1) as i32),
    )
}

/// The canvas cells lit by all placed bitmaps.
pub open spec fn used_cells(ps: Seq<PlacedBitmap>) -> Seq<(i32, i32)>
    decreases ps.len(),
{
    if ps.len() == 0 {
        Seq::empty()
    } else {
        used_cells(ps.drop_last()) + placed_used_cells(ps.last())
    }
}

/// The 1 x 1 boundary of fill cell `c`, with the canvas Y flipped.
pub open spec fn fill_boundary(c: (i32, i32), canvas_h: int, grid: int, layers: LayerConfig) -> ElementView {
    ElementView::Boundary(
        BoundaryView {
            layer: layers.fill_layer,
            datatype: layers.fill_datatype,
            xy: rect_outline(c.0 as int, canvas_h - 1 - c.1, 1, 1, grid),
        },
    )
}

/// Add the text boundaries of one placed bitmap to `elems` and its lit
/// cells to `used`.
fn place_text(
    pb: &PlacedBitmap,
    canvas_h: i32,
    grid: i32,
    layers: LayerConfig,
    elems: &mut Vec<Element>,
    used: &mut Vec<(i32, i32)>,
)
    requires
        0 <= grid,
        text_fits(*pb, canvas_h as int, grid as int),
    ensures
        element_views(final(elems)@) == element_views(old(elems)@) + placed_elements(
            *pb,
            canvas_h as int,
            grid as int,
            layers,
        ),
        final(used)@ == old(used)@ + placed_used_cells(*pb),
{
    let ghost v = pb.bitmap@;
    proof {
        pb.bitmap.lemma_wf();
    }
    let on = pb.bitmap.iter_on();
    let ghost used0 = used@;
    let ghost f = |c: (u32, u32)| ((pb.ox + c.0) as i32, (pb.oy + c.1) as i32);
    let mut i: usize = 0;
    while i < on.len()
        invariant
            i <= on@.len(),
            on@ == lit_pixels(v),
            v == pb.bitmap@,
            text_fits(*pb, canvas_h as int, grid as int),
            forall|j: int| 0 <= j < on@.len() ==> v.on.contains(as_pixel(#[trigger] on@[j])),
            f == (|c: (u32, u32)| ((pb.ox + c.0) as i32, (pb.oy + c.1) as i32)),
            used@ == used0 + on@.take(i as int).map_values(f),
        decreases on@.len() - i,
    {
        let (x, y) = on[i];
        assert(v.on.contains(as_pixel(on@[i as int])));
        used.push((pb.ox + x as i32, pb.oy + y as i32));
        assert(on@.take(i + 1) =~= on@.take(i as int).push(on@[i as int]));
        assert(used@ =~= used0 + on@.take(i + 1).map_values(f));
        i = i + 1;
    }
    assert(on@.take(on@.len() as int) =~= on@);
    push_text_boundaries(&pb.bitmap, pb.ox, pb.oy, canvas_h, grid, layers, elems);
}

/// Add the text boundaries of `bitmap`, placed with its top-left cell at
/// `(ox, oy)` on a canvas `canvas_h` cells high, to `elems`.
pub(crate) fn push_text_boundaries(
    bitmap: &Bitmap,
    ox: i32,
    oy: i32,
    canvas_h: i32,
    grid: i32,
    layers: LayerConfig,
    elems: &mut Vec<Element>,
)
    requires
        0 <= grid,
        text_fits_at(*bitmap, ox as int, oy as int, canvas_h as int, grid as int),
    ensures
        element_views(final(elems)@) == element_views(old(elems)@) + bitmap_elements(
            bitmap@,
            ox as int,
            oy as int,
            canvas_h as int,
            grid as int,
            layers,
        ),
{
    let ghost v = bitmap@;
    proof {
        bitmap.lemma_wf();
    }
    let ghost elems0 = element_views(elems@);
    let regions = bitmap.to_merged_regions();
    let mut j: usize = 0;
    while j < regions.len()
        invariant
            j <= regions@.len(),
            regions@.len() == 1,
            regions@[0] matches MergedRegion::Rectangles(rs) && rs@ == runs(v) && runs_of(v, rs@),
            v == bitmap@,
            v.wf(),
            0 <= grid,
            text_fits_at(*bitmap, ox as int, oy as int, canvas_h as int, grid as int),
            j == 0 ==> element_views(elems@) == elems0,
            j == 1 ==> element_views(elems@) == elems0 + bitmap_elements(
                v,
                ox as int,
                oy as int,
                canvas_h as int,
                grid as int,
                layers,
            ),
        decreases regions@.len() - j,
    {
        match &regions[j] {
            MergedRegion::Polygon(pts) => {
                assert(false);
            },
            MergedRegion::Rectangles(rects) => {
                let ghost g = |r: Rect|
                    text_boundary(ox as int, oy as int, canvas_h as int, grid as int, layers, r);
                let mut k: usize = 0;
                while k < rects.len()
                    invariant
                        k <= rects@.len(),
                        rects@ == runs(v),
                        runs_of(v, rects@),
                        v == bitmap@,
                        v.wf(),
                        0 <= grid,
                        text_fits_at(*bitmap, ox as int, oy as int, canvas_h as int, grid as int),
                        g == (|r: Rect|
                            text_boundary(
                                ox as int,
                                oy as int,
                                canvas_h as int,
                                grid as int,
                                layers,
                                r,
                            )),
                        element_views(elems@) == elems0 + rects@.take(k as int).map_values(g),
                    decreases rects@.len() - k,
                {
                    let r = rects[k];
                    assert(is_run(v.on, rects@[k as int]));
                    let ghost first = (r.x + 0, r.y as int);
                    let ghost last = (r.x + (r.w - 1), r.y as int);
                    assert(v.on.contains(first));
                    assert(v.on.contains(last));
                    let gx = ox + r.x as i32;
                    let gy_top = oy + r.y as i32;
                    let gy_bottom = canvas_h - gy_top - r.h as i32;
                    proof {
                        assert(r.w as i32 == r.w);
                        assert(r.x as i32 == r.x);
                        assert(r.y as i32 == r.y);
                        assert(gx == ox + r.x);
                        let w = r.w as int;
                        let gxi = gx as int;
                        let g0 = grid as int;
                        assert(w * g0 <= v.width * g0) by (nonlinear_arith)
                            requires
                                w <= v.width,
                                0 <= g0,
                        ;
                        assert(gxi * g0 + w * g0 == (gxi + (w - 1) + 1) * g0) by (nonlinear_arith);
                        assert(gy_bottom as int * g0 + 1 * g0 == (gy_bottom + 1) * g0) by (nonlinear_arith);
                    }
                    let b = rect_boundary(
                        gx,
                        gy_bottom,
                        r.w as i32,
                        r.h as i32,
                        grid,
                        layers.text_layer,
                        layers.text_datatype,
                    );
                    let ghost before = elems@;
                    elems.push(Element::Boundary(b));
                    assert(element_views(elems@) =~= element_views(before).push(g(r)));
                    assert(rects@.take(k + 1) =~= rects@.take(k as int).push(r));
                    assert(element_views(elems@) =~= elems0 + rects@.take(k + 1).map_values(g));
                    k = k + 1;
                }
                assert(rects@.take(rects@.len() as int) =~= rects@);
            },
        }
        j = j + 1;
    }
}

/// Add a 1 x 1 boundary on the fill layer for each fill cell.
fn place_fill(
    fills: &Vec<(i32, i32)>,
    canvas_w: i32,
    canvas_h: i32,
    grid: i32,
    layers: LayerConfig,
    elems: &mut Vec<Element>,
)
    requires
        0 < grid,
        0 <= canvas_w,
        0 <= canvas_h,
        canvas_w as int * grid as int <= i32::MAX,
        canvas_h as int * grid as int <= i32::MAX,
        forall|i: int|
            0 <= i < fills@.len() ==> 0 <= (#[trigger] fills@[i]).0 < canvas_w && 0
                <= fills@[i].1 < canvas_h,
    ensures
        element_views(final(elems)@) == element_views(old(elems)@) + fills@.map_values(
            |c: (i32, i32)| fill_boundary(c, canvas_h as int, grid as int, layers),
        ),
{
    let ghost elems0 = element_views(elems@);
    let ghost f = |c: (i32, i32)| fill_boundary(c, canvas_h as int, grid as int, layers);
    let mut i: usize = 0;
    while i < fills.len()
        invariant
            i <= fills@.len(),
            0 < grid,
            0 <= canvas_w,
            0 <= canvas_h,
            canvas_w as int * grid as int <= i32::MAX,
            canvas_h as int * grid as int <= i32::MAX,
            forall|i: int|
                0 <= i < fills@.len() ==> 0 <= (#[trigger] fills@[i]).0 < canvas_w && 0
                    <= fills@[i].1 < canvas_h,
            f == (|c: (i32, i32)| fill_boundary(c, canvas_h as int, grid as int, layers)),
            element_views(elems@) == elems0 + fills@.take(i as int).map_values(f),
        decreases fills@.len() - i,
    {
        let (gx, gy) = fills[i];
        assert(0 <= fills@[i as int].0 < canvas_w && 0 <= fills@[i as int].1 < canvas_h);
        let gy_flipped = canvas_h - 1 - gy;
        proof {
            let g0 = grid as int;
            assert(gx as int * g0 + 1 * g0 <= canvas_w as int * g0 && 0 <= gx as int * g0)
                by (nonlinear_arith)
                requires
                    0 <= gx < canvas_w,
                    0 < g0,
            ;
            assert(gy_flipped as int * g0 + 1 * g0 <= canvas_h as int * g0 && 0 <= gy_flipped
                as int * g0) by (nonlinear_arith)
                requires
                    0 <= gy_flipped < canvas_h,
                    0 < g0,
            ;
        }
        let b = rect_boundary(gx, gy_flipped, 1, 1, grid, layers.fill_layer, layers.fill_datatype);
        let ghost before = elems@;
        elems.push(Element::Boundary(b));
        assert(element_views(elems@) =~= element_views(before).push(f(fills@[i as int])));
        assert(fills@.take(i + 1) =~= fills@.take(i as int).push(fills@[i as int]));
        assert(element_views(elems@) =~= elems0 + fills@.take(i + 1).map_values(f));
        i = i + 1;
    }
    assert(fills@.take(fills@.len() as int) =~= fills@);
}

/// The fill boundaries for fill cells `cells`.
pub open spec fn fill_elements(
    cells: Seq<(i32, i32)>,
    canvas_h: int,
    grid: int,
    layers: LayerConfig,
) -> Seq<ElementView> {
    cells.map_values(|c: (i32, i32)| fill_boundary(c, canvas_h, grid, layers))
}

/// The library written for a project: one top cell `TOP` holding the text
/// boundaries of every placed bitmap, then one 1 x 1 fill boundary per
/// dummy fill cell (the fill avoiding all lit text cells).
pub open spec fn library_view(
    ps: Seq<PlacedBitmap>,
    c: FillConfig,
    layers: LayerConfig,
    target: int,
) -> LibraryView {
    let canvas_h = c.canvas_height_px as int;
    let grid = c.grid_nm as int;
    LibraryView {
        name: "GDS_TEXT"@,
        cells: seq![
            CellView {
                name: "TOP"@,
                elems: text_elements(ps, canvas_h, grid, layers) + fill_elements(
                    fill_cells(c, used_cells(ps), target),
                    canvas_h,
                    grid,
                    layers,
                ),
            },
        ],
    }
}

/// Build the GDS library of a project: the text of every placed bitmap as
/// merged boundaries on the text layer (canvas Y flipped to the GDS
/// bottom-left convention), and `fill_target` dummy fill cells chosen
/// around the text, as 1 x 1 boundaries on the fill layer.
pub fn build_library(
    placed: &[PlacedBitmap],
    cfg: &FillConfig,
    layers: LayerConfig,
    fill_target: usize,
) -> (lib: Library)
    requires
        cfg.grid_nm <= i32::MAX,
        cfg.canvas_height_px <= i32::MAX,
        forall|k: int|
            0 <= k < placed@.len() ==> text_fits(
                #[trigger] placed@[k],
                cfg.canvas_height_px as int,
                cfg.grid_nm as int,
            ),
        fill_target > 0 ==> fill_config_ok(*cfg) && cfg.canvas_width_px * cfg.grid_nm <= i32::MAX
            && cfg.canvas_height_px * cfg.grid_nm <= i32::MAX,
    ensures
        lib@ == library_view(placed@, *cfg, layers, fill_target as int),
{
    let grid = cfg.grid_nm as i32;
    let canvas_w = cfg.canvas_width_px as i32;
    let canvas_h = cfg.canvas_height_px as i32;
    let mut elems: Vec<Element> = Vec::new();
    let mut used: Vec<(i32, i32)> = Vec::new();
    let n = placed.len();
    let mut k: usize = 0;
    while k < n
        invariant
            n == placed@.len(),
            k <= n,
            grid == cfg.grid_nm,
            canvas_h == cfg.canvas_height_px,
            cfg.grid_nm <= i32::MAX,
            cfg.canvas_height_px <= i32::MAX,
            forall|k: int|
                0 <= k < placed@.len() ==> text_fits(
                    #[trigger] placed@[k],
                    cfg.canvas_height_px as int,
                    cfg.grid_nm as int,
                ),
            element_views(elems@) == text_elements(
                placed@.take(k as int),
                canvas_h as int,
                grid as int,
                layers,
            ),
            used@ == used_cells(placed@.take(k as int)),
        decreases n - k,
    {
        assert(text_fits(placed@[k as int], canvas_h as int, grid as int));
        place_text(&placed[k], canvas_h, grid, layers, &mut elems, &mut used);
        assert(placed@.take(k + 1).drop_last() =~= placed@.take(k as int));
        k = k + 1;
    }
    assert(placed@.take(n as int) =~= placed@);
    let fills = compute_fill_cells(cfg, &used, fill_target);
    if fill_target > 0 {
        assert forall|i: int| 0 <= i < fills@.len() implies 0 <= (#[trigger] fills@[i]).0
            < canvas_w && 0 <= fills@[i].1 < canvas_h by {
            lemma_fill_cells_legal(*cfg, used@, fill_target as int, i);
        }
        place_fill(&fills, canvas_w, canvas_h, grid, layers, &mut elems);
    } else {
        proof {
            broadcast use vstd::seq_lib::group_to_multiset_ensures;

            assert(chosen_fill(*cfg, used@, 0) =~= Seq::<(i32, i32)>::empty());
            assert(fills@.to_multiset().len() == 0);
        }
        assert(fills@ =~= Seq::<(i32, i32)>::empty());
        assert(element_views(elems@) =~= element_views(elems@) + fill_elements(
            fills@,
            canvas_h as int,
            grid as int,
            layers,
        ));
    }
    let top = Cell { name: String::from_str("TOP"), elems };
    let mut cells: Vec<Cell> = Vec::new();
    cells.push(top);
    let lib = Library { name: String::from_str("GDS_TEXT"), cells };
    assert(lib@.cells =~= library_view(placed@, *cfg, layers, fill_target as int).cells);
    lib
}

/// Cell `(dx, dy)` of rectangle `r`, as listed by `rects_to_cells`.
pub open spec fn rect_cell(r: Rect, dx: int, dy: int) -> (i32, i32) {
    ((r.x + dx) as i32, (r.y + dy) as i32)
}

proof fn lemma_rect_row_cells_contains(r: Rect, dy: int, dx: int, c: (i32, i32))
    requires
        0 <= dx,
    ensures
        rect_row_cells(r, dy, dx).contains(c) <==> exists|k: int|
            dx <= k < r.w && c == #[trigger] rect_cell(r, k, dy),
    decreases r.w - dx,
{
    if dx < r.w {
        lemma_rect_row_cells_contains(r, dy, dx + 1, c);
        let here = seq![((r.x + dx) as i32, (r.y + dy) as i32)];
        let rest = rect_row_cells(r, dy, dx + 1);
        assert(rect_row_cells(r, dy, dx) =~= here + rest);
        if (here + rest).contains(c) {
            let i = choose|i: int| 0 <= i < (here + rest).len() && (here + rest)[i] == c;
            if i == 0 {
                assert(c == rect_cell(r, dx, dy));
            } else {
                assert(rest[i - 1] == c);
                assert(rest.contains(c));
            }
        }
        if exists|k: int| dx <= k < r.w && c == #[trigger] rect_cell(r, k, dy) {
            let k = choose|k: int| dx <= k < r.w && c == #[trigger] rect_cell(r, k, dy);
            if k == dx {
                assert((here + rest)[0] == c);
            } else {
                assert(rest.contains(c));
                let i = choose|i: int| 0 <= i < rest.len() && rest[i] == c;
                assert((here + rest)[i + 1] == c);
            }
        }
    }
}

proof fn lemma_rect_rows_cells_contains(r: Rect, dy: int, c: (i32, i32))
    requires
        0 <= dy,
    ensures
        rect_rows_cells(r, dy).contains(c) <==> exists|k: int, m: int|
            0 <= k < r.w && dy <= m < r.h && c == #[trigger] rect_cell(r, k, m),
    decreases r.h - dy,
{
    if dy < r.h {
        lemma_rect_rows_cells_contains(r, dy + 1, c);
        lemma_rect_row_cells_contains(r, dy, 0, c);
        let row = rect_row_cells(r, dy, 0);
        let rest = rect_rows_cells(r, dy + 1);
        assert(rect_rows_cells(r, dy) =~= row + rest);
        if (row + rest).contains(c) {
            let i = choose|i: int| 0 <= i < (row + rest).len() && (row + rest)[i] == c;
            if i < row.len() {
                assert(row[i] == c);
                assert(row.contains(c));
                let k = choose|k: int| 0 <= k < r.w && c == #[trigger] rect_cell(r, k, dy);
                assert(c == rect_cell(r, k, dy));
            } else {
                assert(rest[i - row.len()] == c);
                assert(rest.contains(c));
            }
        }
        if exists|k: int, m: int| 0 <= k < r.w && dy <= m < r.h && c == #[trigger] rect_cell(r, k, m) {
            let (k, m) = choose|k: int, m: int|
                0 <= k < r.w && dy <= m < r.h && c == #[trigger] rect_cell(r, k, m);
            if m == dy {
                assert(row.contains(c));
                let i = choose|i: int| 0 <= i < row.len() && row[i] == c;
                assert((row + rest)[i] == c);
            } else {
                assert(rest.contains(c));
                let i = choose|i: int| 0 <= i < rest.len() && rest[i] == c;
                assert((row + rest)[row.len() + i] == c);
            }
        }
    }
}

proof fn lemma_rects_cells_concat(a: Seq<SnippetRect>, b: Seq<SnippetRect>)
    ensures
        rects_cells(a + b) == rects_cells(a) + rects_cells(b),
    decreases b.len(),
{
    if b.len() == 0 {
        assert(a + b =~= a);
        assert(rects_cells(a) + rects_cells(b) =~= rects_cells(a));
    } else {
        lemma_rects_cells_concat(a, b.drop_last());
        assert((a + b).drop_last() =~= a + b.drop_last());
        assert((a + b).last() == b.last());
        assert(rects_cells(a + b) =~= rects_cells(a) + rects_cells(b));
    }
}

/// The cells of the runs of one placed bitmap are its lit pixels moved to
/// its position.
proof fn lemma_placed_cells(pb: PlacedBitmap, rs: Seq<Rect>, c: (i32, i32))
    requires
        placement_fits(pb),
        lands_on_canvas(pb),
        runs_of(pb.bitmap@, rs),
    ensures
        rects_cells(place_runs(pb.ox as int, pb.oy as int, rs)).contains(c) <==> exists|p: (int, int)|
            pb.bitmap@.on.contains(p) && c == ((pb.ox + p.0) as i32, (pb.oy + p.1) as i32),
{
    pb.bitmap.lemma_wf();
    let ox = pb.ox as int;
    let oy = pb.oy as int;
    let on = pb.bitmap@.on;
    lemma_cells_of_placed_runs(ox, oy, rs, c);
    if exists|p: (int, int)| on.contains(p) && c == ((pb.ox + p.0) as i32, (pb.oy + p.1) as i32) {
        let p = choose|p: (int, int)| on.contains(p) && c == ((pb.ox + p.0) as i32, (pb.oy + p.1) as i32);
        lemma_runs_partition(pb.bitmap@, rs, p);
        let i = choose|i: int| 0 <= i < rs.len() && rect_covers(#[trigger] rs[i], p);
        let r = rs[i];
        assert(is_run(on, r));
        assert(on.contains((r.x + 0, r.y as int)));
        assert(c == rect_cell(place_rect(ox, oy, r).rect, p.0 - r.x, 0));
    }
    if exists|i: int, k: int, m: int|
        0 <= i < rs.len() && 0 <= k < rs[i].w && 0 <= m < rs[i].h && c == #[trigger] rect_cell(
            place_rect(ox, oy, rs[i]).rect,
            k,
            m,
        ) {
        let (i, k, m) = choose|i: int, k: int, m: int|
            0 <= i < rs.len() && 0 <= k < rs[i].w && 0 <= m < rs[i].h && c == #[trigger] rect_cell(
                place_rect(ox, oy, rs[i]).rect,
                k,
                m,
            );
        let r = rs[i];
        assert(is_run(on, r));
        assert(on.contains((r.x + 0, r.y as int)));
        assert(on.contains((r.x + k, r.y as int)));
        let p = (r.x + k, r.y as int);
        assert(c == ((pb.ox + p.0) as i32, (pb.oy + p.1) as i32));
    }
}

proof fn lemma_cells_of_placed_runs(ox: int, oy: int, rs: Seq<Rect>, c: (i32, i32))
    ensures
        rects_cells(place_runs(ox, oy, rs)).contains(c) <==> exists|i: int, k: int, m: int|
            0 <= i < rs.len() && 0 <= k < rs[i].w && 0 <= m < rs[i].h && c == #[trigger] rect_cell(
                place_rect(ox, oy, rs[i]).rect,
                k,
                m,
            ),
    decreases rs.len(),
{
    if rs.len() > 0 {
        let ms = place_runs(ox, oy, rs);
        let front = rs.drop_last();
        lemma_cells_of_placed_runs(ox, oy, front, c);
        assert(ms.drop_last() =~= place_runs(ox, oy, front));
        assert(ms.last() == place_rect(ox, oy, rs.last()));
        let last = place_rect(ox, oy, rs.last()).rect;
        lemma_rect_rows_cells_contains(last, 0, c);
        let a = rects_cells(place_runs(ox, oy, front));
        let b = rect_rows_cells(last, 0);
        assert(rects_cells(ms) == a + b);
        if (a + b).contains(c) {
            let j = choose|j: int| 0 <= j < (a + b).len() && (a + b)[j] == c;
            if j < a.len() {
                assert(a[j] == c);
                assert(a.contains(c));
                let (i, k, m) = choose|i: int, k: int, m: int|
                    0 <= i < front.len() && 0 <= k < front[i].w && 0 <= m < front[i].h && c
                        == #[trigger] rect_cell(place_rect(ox, oy, front[i]).rect, k, m);
                assert(rs[i] == front[i]);
                assert(c == rect_cell(place_rect(ox, oy, rs[i]).rect, k, m));
            } else {
                assert(b[j - a.len()] == c);
                assert(b.contains(c));
                let (k, m) = choose|k: int, m: int|
                    0 <= k < last.w && 0 <= m < last.h && c == #[trigger] rect_cell(last, k, m);
                assert(rs[rs.len() - 1] == rs.last());
                assert(c == rect_cell(place_rect(ox, oy, rs[rs.len() - 1]).rect, k, m));
            }
        }
        if exists|i: int, k: int, m: int|
            0 <= i < rs.len() && 0 <= k < rs[i].w && 0 <= m < rs[i].h && c == #[trigger] rect_cell(
                place_rect(ox, oy, rs[i]).rect,
                k,
                m,
            ) {
            let (i, k, m) = choose|i: int, k: int, m: int|
                0 <= i < rs.len() && 0 <= k < rs[i].w && 0 <= m < rs[i].h && c
                    == #[trigger] rect_cell(place_rect(ox, oy, rs[i]).rect, k, m);
            if i < front.len() {
                assert(front[i] == rs[i]);
                assert(c == rect_cell(place_rect(ox, oy, front[i]).rect, k, m));
                assert(a.contains(c));
                let j = choose|j: int| 0 <= j < a.len() && a[j] == c;
                assert((a + b)[j] == c);
            } else {
                assert(rs[i] == rs.last());
                assert(c == rect_cell(last, k, m));
                assert(b.contains(c));
                let j = choose|j: int| 0 <= j < b.len() && b[j] == c;
                assert((a + b)[a.len() + j] == c);
            }
        }
    } else {
        assert(place_runs(ox, oy, rs) =~= Seq::<SnippetRect>::empty());
    }
}

/// The text cells (as listed for the preview and the fill exclusion) are
/// exactly the lit pixels of the placed bitmaps, each moved to its
/// bitmap's position, for bitmaps whose lit pixels all land on the canvas.
pub proof fn lemma_text_cells_are_lit_pixels(ps: Seq<PlacedBitmap>, c: (i32, i32))
    requires
        forall|k: int|
            0 <= k < ps.len() ==> placement_fits(#[trigger] ps[k]) && lands_on_canvas(ps[k]),
    ensures
        rects_cells(text_rects(ps)).contains(c) <==> exists|k: int, p: (int, int)|
            0 <= k < ps.len() && #[trigger] ps[k].bitmap@.on.contains(p) && c == (
                (ps[k].ox + p.0) as i32,
                (ps[k].oy + p.1) as i32,
            ),
    decreases ps.len(),
{
    if ps.len() > 0 {
        let front = ps.drop_last();
        let pb = ps.last();
        assert(ps[ps.len() - 1] == pb);
        assert forall|k: int| 0 <= k < front.len() implies placement_fits(#[trigger] front[k])
            && lands_on_canvas(front[k]) by {
            assert(front[k] == ps[k]);
        }
        lemma_text_cells_are_lit_pixels(front, c);
        let rs = runs(pb.bitmap@);
        pb.bitmap.lemma_runs_exist();
        lemma_placed_cells(pb, rs, c);
        lemma_rects_cells_concat(text_rects(front), placed_rects(pb));
        let a = rects_cells(text_rects(front));
        let b = rects_cells(placed_rects(pb));
        assert(rects_cells(text_rects(ps)) == a + b);
        if (a + b).contains(c) {
            let j = choose|j: int| 0 <= j < (a + b).len() && (a + b)[j] == c;
            if j < a.len() {
                assert(a[j] == c);
                assert(a.contains(c));
                let (k, p) = choose|k: int, p: (int, int)|
                    0 <= k < front.len() && #[trigger] front[k].bitmap@.on.contains(p) && c == (
                        (front[k].ox + p.0) as i32,
                        (front[k].oy + p.1) as i32,
                    );
                assert(ps[k] == front[k]);
            } else {
                assert(b[j - a.len()] == c);
                assert(b.contains(c));
                let p = choose|p: (int, int)|
                    pb.bitmap@.on.contains(p) && c == ((pb.ox + p.0) as i32, (pb.oy + p.1) as i32);
                assert(ps[ps.len() - 1].bitmap@.on.contains(p));
            }
        }
        if exists|k: int, p: (int, int)|
            0 <= k < ps.len() && #[trigger] ps[k].bitmap@.on.contains(p) && c == (
                (ps[k].ox + p.0) as i32,
                (ps[k].oy + p.1) as i32,
            ) {
            let (k, p) = choose|k: int, p: (int, int)|
                0 <= k < ps.len() && #[trigger] ps[k].bitmap@.on.contains(p) && c == (
                    (ps[k].ox + p.0) as i32,
                    (ps[k].oy + p.1) as i32,
                );
            if k < front.len() {
                assert(front[k] == ps[k]);
                assert(a.contains(c));
                let j = choose|j: int| 0 <= j < a.len() && a[j] == c;
                assert((a + b)[j] == c);
            } else {
                assert(b.contains(c));
                let j = choose|j: int| 0 <= j < b.len() && b[j] == c;
                assert((a + b)[a.len() + j] == c);
            }
        }
    }
}

/// Boundary element `e` is a closed rectangle outline covering grid cell
/// `(cx, cy)` (GDS cell coordinates, Y up, cells `grid` nm square).
pub open spec fn covers_cell(e: ElementView, grid: int, cx: int, cy: int) -> bool {
    match e {
        ElementView::Boundary(b) => {
            &&& b.xy.len() == 5
            &&& b.xy[0].0 <= cx * grid < b.xy[2].0
            &&& b.xy[0].1 <= cy * grid < b.xy[2].1
        },
        ElementView::CellRef { .. } => false,
    }
}

proof fn lemma_scaled_between(a: int, c: int, b: int, g: int)
    requires
        0 < g,
    ensures
        (a * g <= c * g < b * g) <==> (a <= c < b),
{
    assert((a * g <= c * g) <==> (a <= c)) by (nonlinear_arith)
        requires
            0 < g,
    ;
    assert((c * g < b * g) <==> (c < b)) by (nonlinear_arith)
        requires
            0 < g,
    ;
}

/// The outline of a rectangle that fits 32-bit coordinates covers exactly
/// the cells of the rectangle.
proof fn lemma_outline_covers(gx: int, gy: int, w: int, h: int, grid: int, cx: int, cy: int)
    requires
        0 < grid,
        rect_fits(gx, gy, w, h, grid),
    ensures
        rect_outline(gx, gy, w, h, grid).len() == 5,
        ({
            let xy = rect_outline(gx, gy, w, h, grid);
            (xy[0].0 <= cx * grid < xy[2].0 && xy[0].1 <= cy * grid < xy[2].1) <==> (gx <= cx < gx
                + w && gy <= cy < gy + h)
        }),
{
    let xy = rect_outline(gx, gy, w, h, grid);
    assert(xy[0].0 == gx * grid);
    assert(xy[0].1 == gy * grid);
    assert(xy[2].0 == gx * grid + w * grid);
    assert(xy[2].1 == gy * grid + h * grid);
    assert(gx * grid + w * grid == (gx + w) * grid) by (nonlinear_arith);
    assert(gy * grid + h * grid == (gy + h) * grid) by (nonlinear_arith);
    lemma_scaled_between(gx, cx, gx + w, grid);
    lemma_scaled_between(gy, cy, gy + h, grid);
}

/// The outline of a run of a bitmap that fits the canvas stays within
/// 32-bit coordinates.
proof fn lemma_run_outline_fits(b: Bitmap, ox: int, oy: int, canvas_h: int, grid: int, r: Rect)
    requires
        0 < grid <= i32::MAX,
        text_fits_at(b, ox, oy, canvas_h, grid),
        is_run(b@.on, r),
    ensures
        rect_fits(ox + r.x, canvas_h - (oy + r.y) - r.h, r.w as int, r.h as int, grid),
{
    b.lemma_wf();
    let first = (r.x + 0, r.y as int);
    let last = (r.x + (r.w - 1), r.y as int);
    assert(b@.on.contains(first));
    assert(b@.on.contains(last));
    assert(pixel_fits(first, ox, oy, canvas_h, grid));
    assert(pixel_fits(last, ox, oy, canvas_h, grid));
    let w = r.w as int;
    let gx = ox + r.x;
    let gy = canvas_h - (oy + r.y) - 1;
    assert(0 <= w * grid <= b@.width * grid) by (nonlinear_arith)
        requires
            1 <= w <= b@.width,
            0 < grid,
    ;
    assert(gx * grid + w * grid == (gx + (w - 1) + 1) * grid) by (nonlinear_arith);
    assert(gy * grid + 1 * grid == (canvas_h - (oy + r.y)) * grid) by (nonlinear_arith)
        requires
            gy == canvas_h - (oy + r.y) - 1,
    ;
}

/// The text boundaries of one placed bitmap cover exactly its lit pixels,
/// moved to its position and flipped against the canvas height.
pub(crate) proof fn lemma_bitmap_elements_cover(
    b: Bitmap,
    ox: int,
    oy: int,
    canvas_h: int,
    grid: int,
    layers: LayerConfig,
    cx: int,
    cy: int,
)
    requires
        0 < grid <= i32::MAX,
        text_fits_at(b, ox, oy, canvas_h, grid),
    ensures
        (exists|i: int|
            0 <= i < bitmap_elements(b@, ox, oy, canvas_h, grid, layers).len() && covers_cell(
                #[trigger] bitmap_elements(b@, ox, oy, canvas_h, grid, layers)[i],
                grid,
                cx,
                cy,
            )) <==> b@.on.contains((cx - ox, canvas_h - 1 - cy - oy)),
{
    let v = b@;
    let es = bitmap_elements(v, ox, oy, canvas_h, grid, layers);
    let rs = runs(v);
    b.lemma_runs_exist();
    let p = (cx - ox, canvas_h - 1 - cy - oy);
    assert forall|i: int| 0 <= i < rs.len() implies (covers_cell(#[trigger] es[i], grid, cx, cy)
        <==> rect_covers(rs[i], p)) by {
        let r = rs[i];
        assert(is_run(v.on, r));
        lemma_run_outline_fits(b, ox, oy, canvas_h, grid, r);
        lemma_outline_covers(
            ox + r.x,
            canvas_h - (oy + r.y) - r.h,
            r.w as int,
            r.h as int,
            grid,
            cx,
            cy,
        );
        assert(es[i] == text_boundary(ox, oy, canvas_h, grid, layers, r));
    }
    lemma_runs_partition(v, rs, p);
    if v.on.contains(p) {
        let i = choose|i: int| 0 <= i < rs.len() && rect_covers(#[trigger] rs[i], p);
        assert(covers_cell(es[i], grid, cx, cy));
    }
    if exists|i: int| 0 <= i < es.len() && covers_cell(#[trigger] es[i], grid, cx, cy) {
        let i = choose|i: int| 0 <= i < es.len() && covers_cell(#[trigger] es[i], grid, cx, cy);
        assert(rect_covers(rs[i], p));
    }
}

/// The GDS text is the rendered text: a grid cell `(cx, cy)` of the GDS
/// (Y up) lies in some text boundary exactly when some placed bitmap has a
/// lit pixel there, once moved to its position and flipped against the
/// canvas height (`cy = canvas_h - 1 - (oy + y)`).
pub proof fn lemma_text_boundaries_are_lit_pixels(
    ps: Seq<PlacedBitmap>,
    canvas_h: int,
    grid: int,
    layers: LayerConfig,
    cx: int,
    cy: int,
)
    requires
        0 < grid <= i32::MAX,
        forall|k: int| 0 <= k < ps.len() ==> text_fits(#[trigger] ps[k], canvas_h, grid),
    ensures
        (exists|i: int|
            0 <= i < text_elements(ps, canvas_h, grid, layers).len() && covers_cell(
                #[trigger] text_elements(ps, canvas_h, grid, layers)[i],
                grid,
                cx,
                cy,
            )) <==> exists|k: int|
            0 <= k < ps.len() && #[trigger] ps[k].bitmap@.on.contains(
                (cx - ps[k].ox, canvas_h - 1 - cy - ps[k].oy),
            ),
    decreases ps.len(),
{
    if ps.len() > 0 {
        let front = ps.drop_last();
        let pb = ps.last();
        assert(ps[ps.len() - 1] == pb);
        assert forall|k: int| 0 <= k < front.len() implies text_fits(
            #[trigger] front[k],
            canvas_h,
            grid,
        ) by {
            assert(front[k] == ps[k]);
        }
        lemma_text_boundaries_are_lit_pixels(front, canvas_h, grid, layers, cx, cy);
        lemma_bitmap_elements_cover(
            pb.bitmap,
            pb.ox as int,
            pb.oy as int,
            canvas_h,
            grid,
            layers,
            cx,
            cy,
        );
        let a = text_elements(front, canvas_h, grid, layers);
        let b = placed_elements(pb, canvas_h, grid, layers);
        let all = text_elements(ps, canvas_h, grid, layers);
        assert(all == a + b);
        if exists|i: int| 0 <= i < all.len() && covers_cell(#[trigger] all[i], grid, cx, cy) {
            let i = choose|i: int| 0 <= i < all.len() && covers_cell(#[trigger] all[i], grid, cx, cy);
            if i < a.len() {
                assert(all[i] == a[i]);
                let k = choose|k: int|
                    0 <= k < front.len() && #[trigger] front[k].bitmap@.on.contains(
                        (cx - front[k].ox, canvas_h - 1 - cy - front[k].oy),
                    );
                assert(ps[k] == front[k]);
            } else {
                assert(all[i] == b[i - a.len()]);
                assert(covers_cell(b[i - a.len()], grid, cx, cy));
                assert(ps[ps.len() - 1].bitmap@.on.contains(
                    (cx - ps[ps.len() - 1].ox, canvas_h - 1 - cy - ps[ps.len() - 1].oy),
                ));
            }
        }
        if exists|k: int|
            0 <= k < ps.len() && #[trigger] ps[k].bitmap@.on.contains(
                (cx - ps[k].ox, canvas_h - 1 - cy - ps[k].oy),
            ) {
            let k = choose|k: int|
                0 <= k < ps.len() && #[trigger] ps[k].bitmap@.on.contains(
                    (cx - ps[k].ox, canvas_h - 1 - cy - ps[k].oy),
                );
            if k < front.len() {
                assert(front[k] == ps[k]);
                assert(front[k].bitmap@.on.contains(
                    (cx - front[k].ox, canvas_h - 1 - cy - front[k].oy),
                ));
                let i = choose|i: int| 0 <= i < a.len() && covers_cell(#[trigger] a[i], grid, cx, cy);
                assert(all[i] == a[i]);
            } else {
                assert(pb.bitmap@.on.contains((cx - pb.ox, canvas_h - 1 - cy - pb.oy)));
                let i = choose|i: int| 0 <= i < b.len() && covers_cell(#[trigger] b[i], grid, cx, cy);
                assert(all[a.len() + i] == b[i]);
            }
        }
    }
}

/// Each fill boundary covers exactly its own cell: a grid cell `(cx, cy)`
/// of the GDS (Y up) lies in some fill boundary exactly when
/// `(cx, canvas_h - 1 - cy)` is one of the fill cells, for fill cells on a
/// canvas whose size in nanometres fits 32 bits.
pub proof fn lemma_fill_boundaries_are_fill_cells(
    cells: Seq<(i32, i32)>,
    canvas_w: int,
    canvas_h: int,
    grid: int,
    layers: LayerConfig,
    cx: int,
    cy: int,
)
    requires
        0 < grid <= i32::MAX,
        canvas_w * grid <= i32::MAX,
        canvas_h * grid <= i32::MAX,
        forall|j: int|
            0 <= j < cells.len() ==> 0 <= (#[trigger] cells[j]).0 < canvas_w && 0 <= cells[j].1
                < canvas_h,
    ensures
        (exists|i: int|
            0 <= i < fill_elements(cells, canvas_h, grid, layers).len() && covers_cell(
                #[trigger] fill_elements(cells, canvas_h, grid, layers)[i],
                grid,
                cx,
                cy,
            )) <==> exists|j: int|
            0 <= j < cells.len() && (#[trigger] cells[j]).0 == cx && cells[j].1 == canvas_h - 1
                - cy,
{
    let es = fill_elements(cells, canvas_h, grid, layers);
    assert forall|j: int| 0 <= j < cells.len() implies (covers_cell(#[trigger] es[j], grid, cx, cy)
        <==> (cells[j].0 == cx && cells[j].1 == canvas_h - 1 - cy)) by {
        let c = cells[j];
        let gx = c.0 as int;
        let gy = canvas_h - 1 - c.1;
        assert(0 <= gx * grid && (gx + 1) * grid <= canvas_w * grid) by (nonlinear_arith)
            requires
                0 <= gx < canvas_w,
                0 < grid,
        ;
        assert(0 <= gy * grid && (gy + 1) * grid <= canvas_h * grid) by (nonlinear_arith)
            requires
                0 <= gy < canvas_h,
                0 < grid,
        ;
        assert(gx * grid + 1 * grid == (gx + 1) * grid) by (nonlinear_arith);
        assert(gy * grid + 1 * grid == (gy + 1) * grid) by (nonlinear_arith);
        lemma_outline_covers(gx, gy, 1, 1, grid, cx, cy);
        assert(es[j] == fill_boundary(c, canvas_h, grid, layers));
    }
    if exists|i: int| 0 <= i < es.len() && covers_cell(#[trigger] es[i], grid, cx, cy) {
        let i = choose|i: int| 0 <= i < es.len() && covers_cell(#[trigger] es[i], grid, cx, cy);
        assert(cells[i].0 == cx && cells[i].1 == canvas_h - 1 - cy);
    }
    if exists|j: int|
        0 <= j < cells.len() && (#[trigger] cells[j]).0 == cx && cells[j].1 == canvas_h - 1 - cy {
        let j = choose|j: int|
            0 <= j < cells.len() && (#[trigger] cells[j]).0 == cx && cells[j].1 == canvas_h - 1 - cy;
        assert(covers_cell(es[j], grid, cx, cy));
    }
}

/// Every lit pixel of every placed bitmap, moved to its position, is among
/// the used cells.
proof fn lemma_used_cells_contain(ps: Seq<PlacedBitmap>, k: int, p: (int, int))
    requires
        0 <= k < ps.len(),
        ps[k].bitmap.valid(),
        ps[k].bitmap@.on.contains(p),
    ensures
        used_cells(ps).contains(((ps[k].ox + p.0) as i32, (ps[k].oy + p.1) as i32)),
    decreases ps.len(),
{
    let front = ps.drop_last();
    let pb = ps.last();
    let c = ((ps[k].ox + p.0) as i32, (ps[k].oy + p.1) as i32);
    let a = used_cells(front);
    let b = placed_used_cells(pb);
    assert(used_cells(ps) == a + b);
    if k < ps.len() - 1 {
        assert(front[k] == ps[k]);
        lemma_used_cells_contain(front, k, p);
        let j = choose|j: int| 0 <= j < a.len() && a[j] == c;
        assert((a + b)[j] == c);
    } else {
        assert(pb == ps[k]);
        pb.bitmap.lemma_lit_pixels_exist();
        let lp = lit_pixels(pb.bitmap@);
        let j = choose|j: int| 0 <= j < lp.len() && as_pixel(#[trigger] lp[j]) == p;
        assert(b[j] == c);
        assert((a + b)[a.len() + j] == c);
    }
}

/// The dummy fill of the library keeps the fill-to-metal spacing from all
/// text: no fill cell lies within `exclusion_radius` cells, in both
/// directions at once, of a lit pixel of a placed bitmap.
pub proof fn lemma_library_fill_clear_of_text(
    ps: Seq<PlacedBitmap>,
    c: FillConfig,
    target: int,
    i: int,
    k: int,
    p: (int, int),
)
    requires
        fill_config_ok(c),
        0 <= target,
        0 <= i < fill_cells(c, used_cells(ps), target).len(),
        0 <= k < ps.len(),
        placement_fits(ps[k]),
        ps[k].bitmap@.on.contains(p),
    ensures
        ({
            let f = fill_cells(c, used_cells(ps), target)[i];
            let e = exclusion_radius(c);
            let tx = ps[k].ox + p.0;
            let ty = ps[k].oy + p.1;
            f.0 - tx > e || tx - f.0 > e || f.1 - ty > e || ty - f.1 > e
        }),
{
    let used = used_cells(ps);
    ps[k].bitmap.lemma_wf();
    lemma_used_cells_contain(ps, k, p);
    let t = ((ps[k].ox + p.0) as i32, (ps[k].oy + p.1) as i32);
    assert(t.0 == ps[k].ox + p.0 && t.1 == ps[k].oy + p.1);
    let j = choose|j: int| 0 <= j < used.len() && used[j] == t;
    lemma_fill_cells_legal(c, used, target, i);
    let f = fill_cells(c, used, target)[i];
    assert(!near_used(used, exclusion_radius(c), f.0 as int, f.1 as int));
    assert(used[j] == t);
}

/// Every vertex of boundary element `e` lies on the `grid` nm raster.
pub open spec fn on_grid(e: ElementView, grid: int) -> bool {
    match e {
        ElementView::Boundary(b) => forall|j: int|
            0 <= j < b.xy.len() ==> (#[trigger] b.xy[j]).0 as int % grid == 0 && b.xy[j].1 as int
                % grid == 0,
        ElementView::CellRef { .. } => true,
    }
}

proof fn lemma_multiple_mod(a: int, g: int)
    requires
        0 < g,
    ensures
        (a * g) % g == 0,
{
    vstd::arithmetic::div_mod::lemma_mod_multiples_basic(a, g);
}

/// The outline of a rectangle that fits 32-bit coordinates has its vertices
/// on the grid.
proof fn lemma_outline_on_grid(gx: int, gy: int, w: int, h: int, grid: int, layer: i16, datatype: i16)
    requires
        0 < grid,
        rect_fits(gx, gy, w, h, grid),
    ensures
        on_grid(
            ElementView::Boundary(
                BoundaryView { layer, datatype, xy: rect_outline(gx, gy, w, h, grid) },
            ),
            grid,
        ),
{
    let xy = rect_outline(gx, gy, w, h, grid);
    assert(gx * grid + w * grid == (gx + w) * grid) by (nonlinear_arith);
    assert(gy * grid + h * grid == (gy + h) * grid) by (nonlinear_arith);
    lemma_multiple_mod(gx, grid);
    lemma_multiple_mod(gy, grid);
    lemma_multiple_mod(gx + w, grid);
    lemma_multiple_mod(gy + h, grid);
    assert forall|j: int| 0 <= j < xy.len() implies (#[trigger] xy[j]).0 as int % grid == 0
        && xy[j].1 as int % grid == 0 by {
        assert(xy[0].0 == gx * grid && xy[0].1 == gy * grid);
        assert(xy[2].0 == (gx + w) * grid && xy[2].1 == (gy + h) * grid);
    }
}

proof fn lemma_text_elements_on_grid(
    ps: Seq<PlacedBitmap>,
    canvas_h: int,
    grid: int,
    layers: LayerConfig,
    i: int,
)
    requires
        0 < grid <= i32::MAX,
        forall|k: int| 0 <= k < ps.len() ==> text_fits(#[trigger] ps[k], canvas_h, grid),
        0 <= i < text_elements(ps, canvas_h, grid, layers).len(),
    ensures
        on_grid(text_elements(ps, canvas_h, grid, layers)[i], grid),
    decreases ps.len(),
{
    let front = ps.drop_last();
    let pb = ps.last();
    let a = text_elements(front, canvas_h, grid, layers);
    let b = placed_elements(pb, canvas_h, grid, layers);
    assert(text_elements(ps, canvas_h, grid, layers) == a + b);
    if i < a.len() {
        assert forall|k: int| 0 <= k < front.len() implies text_fits(
            #[trigger] front[k],
            canvas_h,
            grid,
        ) by {
            assert(front[k] == ps[k]);
        }
        lemma_text_elements_on_grid(front, canvas_h, grid, layers, i);
    } else {
        assert(ps[ps.len() - 1] == pb);
        assert(text_fits(pb, canvas_h, grid));
        let v = pb.bitmap@;
        pb.bitmap.lemma_runs_exist();
        let r = runs(v)[i - a.len()];
        assert(is_run(v.on, r));
        lemma_run_outline_fits(pb.bitmap, pb.ox as int, pb.oy as int, canvas_h, grid, r);
        lemma_outline_on_grid(
            pb.ox + r.x,
            canvas_h - (pb.oy + r.y) - r.h,
            r.w as int,
            r.h as int,
            grid,
            layers.text_layer,
            layers.text_datatype,
        );
        assert(b[i - a.len()] == text_boundary(pb.ox as int, pb.oy as int, canvas_h, grid, layers, r));
    }
}

/// The layout is a dot-matrix raster on the nanometre grid: every vertex of
/// every boundary of the library built for a project is a multiple of
/// `grid_nm`, in both coordinates.
pub proof fn lemma_library_on_grid(
    ps: Seq<PlacedBitmap>,
    c: FillConfig,
    layers: LayerConfig,
    target: int,
    i: int,
)
    requires
        fill_config_ok(c),
        0 <= target,
        forall|k: int|
            0 <= k < ps.len() ==> text_fits(
                #[trigger] ps[k],
                c.canvas_height_px as int,
                c.grid_nm as int,
            ),
        target > 0 ==> c.canvas_width_px * c.grid_nm <= i32::MAX && c.canvas_height_px * c.grid_nm
            <= i32::MAX,
        0 <= i < library_view(ps, c, layers, target).cells[0].elems.len(),
    ensures
        library_view(ps, c, layers, target).cells.len() == 1,
        on_grid(library_view(ps, c, layers, target).cells[0].elems[i], c.grid_nm as int),
{
    let canvas_h = c.canvas_height_px as int;
    let grid = c.grid_nm as int;
    let te = text_elements(ps, canvas_h, grid, layers);
    let cells = fill_cells(c, used_cells(ps), target);
    let fe = fill_elements(cells, canvas_h, grid, layers);
    let elems = library_view(ps, c, layers, target).cells[0].elems;
    assert(elems == te + fe);
    if i < te.len() {
        lemma_text_elements_on_grid(ps, canvas_h, grid, layers, i);
        assert(elems[i] == te[i]);
    } else {
        let j = i - te.len();
        assert(elems[i] == fe[j]);
        lemma_fill_cells_legal(c, used_cells(ps), target, j);
        let f = cells[j];
        assert(target > 0);
        let gx = f.0 as int;
        let gy = canvas_h - 1 - f.1;
        assert(0 <= gx * grid && (gx + 1) * grid <= c.canvas_width_px * grid) by (nonlinear_arith)
            requires
                0 <= gx < c.canvas_width_px,
                0 < grid,
        ;
        assert(0 <= gy * grid && (gy + 1) * grid <= canvas_h * grid) by (nonlinear_arith)
            requires
                0 <= gy < canvas_h,
                0 < grid,
        ;
        assert(gx * grid + 1 * grid == (gx + 1) * grid) by (nonlinear_arith);
        assert(gy * grid + 1 * grid == (gy + 1) * grid) by (nonlinear_arith);
        lemma_outline_on_grid(gx, gy, 1, 1, grid, layers.fill_layer, layers.fill_datatype);
        assert(fe[j] == fill_boundary(f, canvas_h, grid, layers));
    }
}

/// Two sequences without repeats that hold the same elements are the same
/// multiset.
proof fn lemma_same_members_same_multiset<A>(a: Seq<A>, b: Seq<A>)
    requires
        a.no_duplicates(),
        b.no_duplicates(),
        forall|x: A| a.contains(x) <==> b.contains(x),
    ensures
        a.to_multiset() == b.to_multiset(),
{
    broadcast use vstd::seq_lib::group_to_multiset_ensures;

    a.lemma_multiset_has_no_duplicates();
    b.lemma_multiset_has_no_duplicates();
    assert forall|x: A| a.to_multiset().count(x) == b.to_multiset().count(x) by {
        if a.contains(x) {
            assert(a.to_multiset().contains(x));
            assert(b.to_multiset().contains(x));
        }
    }
    assert(a.to_multiset() =~= b.to_multiset());
}

proof fn lemma_concat_no_duplicates<A>(a: Seq<A>, b: Seq<A>)
    requires
        a.no_duplicates(),
        b.no_duplicates(),
        forall|x: A| !(a.contains(x) && b.contains(x)),
    ensures
        (a + b).no_duplicates(),
{
    let s = a + b;
    assert forall|i: int, j: int| 0 <= i < s.len() && 0 <= j < s.len() && i != j implies s[i]
        != s[j] by {
        if i < a.len() && j >= a.len() {
            assert(a.contains(s[i]) && b.contains(s[j]));
        } else if j < a.len() && i >= a.len() {
            assert(a.contains(s[j]) && b.contains(s[i]));
        } else if i >= a.len() {
            assert(s[i] == b[i - a.len()] && s[j] == b[j - a.len()]);
        }
    }
}

/// The cells of one row of a rectangle whose columns fit `i32` are distinct.
proof fn lemma_row_cells_distinct(r: Rect, dy: int, dx: int)
    requires
        0 <= dx,
        r.x + r.w <= i32::MAX + 1,
    ensures
        rect_row_cells(r, dy, dx).no_duplicates(),
    decreases r.w - dx,
{
    if dx < r.w {
        lemma_row_cells_distinct(r, dy, dx + 1);
        let c = rect_cell(r, dx, dy);
        lemma_rect_row_cells_contains(r, dy, dx + 1, c);
        let here = seq![((r.x + dx) as i32, (r.y + dy) as i32)];
        let rest = rect_row_cells(r, dy, dx + 1);
        assert(rect_row_cells(r, dy, dx) =~= here + rest);
        if rest.contains(c) {
            let k = choose|k: int| dx + 1 <= k < r.w && c == #[trigger] rect_cell(r, k, dy);
            assert((r.x + dx) as i32 == r.x + dx);
            assert((r.x + k) as i32 == r.x + k);
        }
        assert forall|x: (i32, i32)| !(here.contains(x) && rest.contains(x)) by {
            if here.contains(x) {
                assert(x == here[0]);
            }
        }
        lemma_concat_no_duplicates(here, rest);
    }
}

/// The placed cells of runs that share no pixel are distinct.
proof fn lemma_placed_runs_distinct(pb: PlacedBitmap, rs: Seq<Rect>)
    requires
        placement_fits(pb),
        lands_on_canvas(pb),
        forall|i: int| 0 <= i < rs.len() ==> is_run(pb.bitmap@.on, #[trigger] rs[i]),
        forall|i: int, j: int, p: (int, int)|
            0 <= i < rs.len() && 0 <= j < rs.len() && i != j ==> !(rect_covers(
                #[trigger] rs[i],
                p,
            ) && #[trigger] rect_covers(rs[j], p)),
    ensures
        rects_cells(place_runs(pb.ox as int, pb.oy as int, rs)).no_duplicates(),
    decreases rs.len(),
{
    let ox = pb.ox as int;
    let oy = pb.oy as int;
    let on = pb.bitmap@.on;
    if rs.len() == 0 {
        assert(place_runs(ox, oy, rs) =~= Seq::<SnippetRect>::empty());
    } else {
        let front = rs.drop_last();
        let last = rs.last();
        assert(rs[rs.len() - 1] == last);
        assert forall|i: int| 0 <= i < front.len() implies is_run(on, #[trigger] front[i]) by {
            assert(front[i] == rs[i]);
        }
        assert forall|i: int, j: int, p: (int, int)|
            0 <= i < front.len() && 0 <= j < front.len() && i != j implies !(rect_covers(
            #[trigger] front[i],
            p,
        ) && #[trigger] rect_covers(front[j], p)) by {
            assert(front[i] == rs[i] && front[j] == rs[j]);
        }
        lemma_placed_runs_distinct(pb, front);
        let ms = place_runs(ox, oy, rs);
        assert(ms.drop_last() =~= place_runs(ox, oy, front));
        assert(ms.last() == place_rect(ox, oy, last));
        let pr = place_rect(ox, oy, last).rect;
        let a = rects_cells(place_runs(ox, oy, front));
        let b = rect_rows_cells(pr, 0);
        assert(rects_cells(ms) == a + b);
        assert(is_run(on, last));
        assert(on.contains((last.x + (last.w - 1), last.y as int)));
        assert(on.contains((last.x + 0, last.y as int)));
        assert(pr.x == ox + last.x && pr.y == oy + last.y);
        lemma_row_cells_distinct(pr, 0, 0);
        assert(rect_rows_cells(pr, 1) =~= Seq::<(i32, i32)>::empty());
        assert(b =~= rect_row_cells(pr, 0, 0) + rect_rows_cells(pr, 1));
        assert(b =~= rect_row_cells(pr, 0, 0));
        assert forall|c: (i32, i32)| !(a.contains(c) && b.contains(c)) by {
            if a.contains(c) && b.contains(c) {
                lemma_cells_of_placed_runs(ox, oy, front, c);
                let (i, k, m) = choose|i: int, k: int, m: int|
                    0 <= i < front.len() && 0 <= k < front[i].w && 0 <= m < front[i].h && c
                        == #[trigger] rect_cell(place_rect(ox, oy, front[i]).rect, k, m);
                lemma_rect_rows_cells_contains(pr, 0, c);
                let (k2, m2) = choose|k2: int, m2: int|
                    0 <= k2 < pr.w && 0 <= m2 < pr.h && c == #[trigger] rect_cell(pr, k2, m2);
                let fi = front[i];
                assert(fi == rs[i]);
                assert(is_run(on, fi));
                assert(on.contains((fi.x + k, fi.y as int)));
                assert(on.contains((fi.x + 0, fi.y as int)));
                assert(on.contains((last.x + k2, last.y as int)));
                let fr = place_rect(ox, oy, fi).rect;
                assert(fr.x == ox + fi.x && fr.y == oy + fi.y);
                assert((fr.x + k) as i32 == fr.x + k);
                assert((pr.x + k2) as i32 == pr.x + k2);
                let p = (fi.x + k, fi.y as int);
                assert(rect_covers(rs[i], p));
                assert(rect_covers(rs[rs.len() - 1], p));
            }
        }
        lemma_concat_no_duplicates(a, b);
    }
}

/// The text cells of one placed bitmap and its used cells are the same
/// multiset.
proof fn lemma_placed_cells_multiset(pb: PlacedBitmap)
    requires
        placement_fits(pb),
        lands_on_canvas(pb),
    ensures
        rects_cells(placed_rects(pb)).to_multiset() == placed_used_cells(pb).to_multiset(),
{
    let v = pb.bitmap@;
    pb.bitmap.lemma_wf();
    pb.bitmap.lemma_runs_exist();
    pb.bitmap.lemma_lit_pixels_exist();
    let rs = runs(v);
    let a = rects_cells(placed_rects(pb));
    let b = placed_used_cells(pb);
    let lp = lit_pixels(v);
    assert forall|i: int, j: int, p: (int, int)|
        0 <= i < rs.len() && 0 <= j < rs.len() && i != j implies !(rect_covers(
        #[trigger] rs[i],
        p,
    ) && #[trigger] rect_covers(rs[j], p)) by {
        lemma_runs_partition(v, rs, p);
    }
    lemma_placed_runs_distinct(pb, rs);
    assert forall|i: int, j: int| 0 <= i < b.len() && 0 <= j < b.len() && i != j implies b[i]
        != b[j] by {
        assert(v.on.contains(as_pixel(lp[i])) && v.on.contains(as_pixel(lp[j])));
        if i < j {
            assert(row_major_before(as_pixel(lp[i]), as_pixel(lp[j])));
        } else {
            assert(row_major_before(as_pixel(lp[j]), as_pixel(lp[i])));
        }
    }
    assert forall|c: (i32, i32)| a.contains(c) <==> b.contains(c) by {
        lemma_placed_cells(pb, rs, c);
        if b.contains(c) {
            let i = choose|i: int| 0 <= i < b.len() && b[i] == c;
            assert(v.on.contains(as_pixel(lp[i])));
            let p = as_pixel(lp[i]);
            assert(c == ((pb.ox + p.0) as i32, (pb.oy + p.1) as i32));
        }
        if a.contains(c) {
            let p = choose|p: (int, int)|
                v.on.contains(p) && c == ((pb.ox + p.0) as i32, (pb.oy + p.1) as i32);
            let i = choose|i: int| 0 <= i < lp.len() && as_pixel(#[trigger] lp[i]) == p;
            assert(b[i] == c);
        }
    }
    lemma_same_members_same_multiset(a, b);
}

/// The text cells are the lit pixels of every placed bitmap, shifted to its
/// position, counted with multiplicity (overlapping snippets count twice),
/// for bitmaps whose lit pixels all land on the canvas.
pub proof fn lemma_text_cells_multiset(ps: Seq<PlacedBitmap>)
    requires
        forall|k: int|
            0 <= k < ps.len() ==> placement_fits(#[trigger] ps[k]) && lands_on_canvas(ps[k]),
    ensures
        rects_cells(text_rects(ps)).to_multiset() == used_cells(ps).to_multiset(),
    decreases ps.len(),
{
    if ps.len() == 0 {
        assert(rects_cells(text_rects(ps)) =~= Seq::<(i32, i32)>::empty());
    } else {
        let front = ps.drop_last();
        let pb = ps.last();
        assert(ps[ps.len() - 1] == pb);
        assert forall|k: int| 0 <= k < front.len() implies placement_fits(#[trigger] front[k])
            && lands_on_canvas(front[k]) by {
            assert(front[k] == ps[k]);
        }
        lemma_text_cells_multiset(front);
        lemma_placed_cells_multiset(pb);
        lemma_rects_cells_concat(text_rects(front), placed_rects(pb));
        let a = rects_cells(text_rects(front));
        let b = rects_cells(placed_rects(pb));
        vstd::seq_lib::lemma_multiset_commutative(a, b);
        vstd::seq_lib::lemma_multiset_commutative(used_cells(front), placed_used_cells(pb));
    }
}

/// `e` is a boundary on layer `layer` with datatype `datatype`.
pub open spec fn boundary_on(e: ElementView, layer: i16, datatype: i16) -> bool {
    e matches ElementView::Boundary(b) && b.layer == layer && b.datatype == datatype
}

/// Every text element is a boundary on the text layer and datatype, one per
/// text run.
proof fn lemma_text_elements_layers(
    ps: Seq<PlacedBitmap>,
    canvas_h: int,
    grid: int,
    layers: LayerConfig,
)
    ensures
        text_elements(ps, canvas_h, grid, layers).len() == text_rects(ps).len(),
        forall|i: int|
            0 <= i < text_elements(ps, canvas_h, grid, layers).len() ==> boundary_on(#[trigger] text_elements(
                ps,
                canvas_h,
                grid,
                layers,
            )[i], layers.text_layer, layers.text_datatype),
    decreases ps.len(),
{
    if ps.len() > 0 {
        let front = ps.drop_last();
        lemma_text_elements_layers(front, canvas_h, grid, layers);
        let a = text_elements(front, canvas_h, grid, layers);
        let b = placed_elements(ps.last(), canvas_h, grid, layers);
        let t = text_elements(ps, canvas_h, grid, layers);
        assert(t == a + b);
        assert forall|i: int| 0 <= i < t.len() implies boundary_on(#[trigger] t[i], layers.text_layer, layers.text_datatype) by {
            if i >= a.len() {
                assert(t[i] == b[i - a.len()]);
            } else {
                assert(t[i] == a[i]);
            }
        }
    }
}

/// The project library has one cell; its elements are boundaries, the text
/// ones first (one per text run) on the text layer and datatype, then the
/// fill ones (one per fill cell) on the fill layer and datatype.
pub proof fn lemma_library_layers(
    ps: Seq<PlacedBitmap>,
    c: FillConfig,
    layers: LayerConfig,
    target: int,
)
    ensures
        ({
            let lib = library_view(ps, c, layers, target);
            let elems = lib.cells[0].elems;
            let nt = text_rects(ps).len();
            &&& lib.cells.len() == 1
            &&& elems.len() == nt + fill_cells(c, used_cells(ps), target).len()
            &&& forall|i: int|
                0 <= i < nt ==> boundary_on(#[trigger] elems[i], layers.text_layer, layers.text_datatype)
            &&& forall|i: int|
                nt <= i < elems.len() ==> boundary_on(#[trigger] elems[i], layers.fill_layer, layers.fill_datatype)
        }),
{
    let canvas_h = c.canvas_height_px as int;
    let grid = c.grid_nm as int;
    lemma_text_elements_layers(ps, canvas_h, grid, layers);
    let t = text_elements(ps, canvas_h, grid, layers);
    let f = fill_elements(fill_cells(c, used_cells(ps), target), canvas_h, grid, layers);
    let elems = library_view(ps, c, layers, target).cells[0].elems;
    assert(elems == t + f);
    assert forall|i: int| 0 <= i < t.len() implies boundary_on(#[trigger] elems[i], layers.text_layer, layers.text_datatype) by {
        assert(elems[i] == t[i]);
    }
    assert forall|i: int| t.len() <= i < elems.len() implies boundary_on(#[trigger] elems[i], layers.fill_layer, layers.fill_datatype) by {
        assert(elems[i] == f[i - t.len()]);
    }
}

} // verus!
