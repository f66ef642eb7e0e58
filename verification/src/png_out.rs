//! PNG previews: the layout drawn cell by cell, and the boundaries read
//! back from a GDSII file drawn box by box, as RGB images.
use vstd::prelude::*;
use crate::config::LayerConfig;
use crate::gds_out::Boundary;
use crate::raster::pixel_offset;
use crate::bitmap::{cell_index, lemma_cell_index_injective, lemma_cell_index_bounds};

verus! {

/// An RGB image of the `image` crate (`image::RgbImage`), held whole: its
/// contents are known only through `picture_bytes` and `picture_size`.
#[verifier::external_body]
pub struct RgbPicture {
    img: image::RgbImage,
}

/// The bytes an RGB image holds: row-major, three per pixel.
pub uninterp spec fn picture_bytes(img: RgbPicture) -> Seq<u8>;

/// The width and height an RGB image was made with.
pub uninterp spec fn picture_size(img: RgbPicture) -> (nat, nat);

/// `ImageBuffer::from_pixel`, which makes a `width` x `height` image (it
/// panics when `3 * width * height` overflows `usize`) and sets every
/// pixel to `color`. Claimed: the image has that size and its bytes are
/// `color` repeated once per pixel.
#[verifier::external_body]
fn picture_from_pixel(width: u32, height: u32, color: [u8; 3]) -> (img: RgbPicture)
    requires
        width as int * height as int * 3 <= usize::MAX,
    ensures
        picture_size(img) == (width as nat, height as nat),
        picture_bytes(img) == Seq::new((width * height * 3) as nat, |i: int| color@[i % 3]),
{
    RgbPicture { img: image::RgbImage::from_pixel(width, height, image::Rgb(color)) }
}

/// `ImageBuffer::put_pixel`, which panics outside the image and otherwise
/// writes the pixel's three bytes at `(y * width + x) * 3`. Claimed: the
/// size stays, and the bytes change exactly there, to `color`.
#[verifier::external_body]
fn picture_put(img: &mut RgbPicture, x: u32, y: u32, color: [u8; 3])
    requires
        x < picture_size(*old(img)).0,
        y < picture_size(*old(img)).1,
    ensures
        picture_size(*final(img)) == picture_size(*old(img)),
        picture_bytes(*final(img)) == put_rgb(
            picture_bytes(*old(img)),
            picture_size(*old(img)).0 as int,
            x as int,
            y as int,
            color@,
        ),
{
    img.img.put_pixel(x, y, image::Rgb(color));
}

/// `ImageBuffer::dimensions`: the width and height of the image.
#[verifier::external_body]
fn picture_dimensions(img: &RgbPicture) -> (r: (u32, u32))
    ensures
        (r.0 as nat, r.1 as nat) == picture_size(*img),
{
    img.img.dimensions()
}

/// `ImageBuffer::into_raw`: the bytes the image holds.
#[verifier::external_body]
fn picture_into_raw(img: RgbPicture) -> (r: Vec<u8>)
    ensures
        r@ == picture_bytes(img),
{
    img.img.into_raw()
}

impl RgbPicture {
    /// Width and height in pixels.
    pub fn dimensions(&self) -> (r: (u32, u32))
        ensures
            (r.0 as nat, r.1 as nat) == picture_size(*self),
    {
        picture_dimensions(self)
    }

    /// The pixel bytes, row-major, three per pixel.
    pub fn into_bytes(self) -> (r: Vec<u8>)
        ensures
            r@ == picture_bytes(self),
    {
        picture_into_raw(self)
    }
}

/// `img` is a well-formed `w` x `h` RGB image.
pub open spec fn picture_is(img: RgbPicture, w: int, h: int) -> bool {
    &&& picture_size(img) == (w as nat, h as nat)
    &&& picture_bytes(img).len() == w * h * 3
}

/// `buf` with RGB pixel `(x, y)` of a `w`-pixel-wide image set to `c`.
pub open spec fn put_rgb(buf: Seq<u8>, w: int, x: int, y: int, c: Seq<u8>) -> Seq<u8> {
    let i = pixel_offset(w, x, y, 3);
    buf.update(i, c[0]).update(i + 1, c[1]).update(i + 2, c[2])
}

/// `buf` with the pixels `x..x1` of row `y` set to `c`, left to right.
pub open spec fn fill_row_spec(buf: Seq<u8>, w: int, x: int, x1: int, y: int, c: Seq<u8>) -> Seq<u8>
    decreases x1 - x,
{
    if x >= x1 {
        buf
    } else {
        fill_row_spec(put_rgb(buf, w, x, y, c), w, x + 1, x1, y, c)
    }
}

/// `buf` with the box `[x0, x1) x [y, y1)` set to `c`, row by row.
pub open spec fn fill_box_spec(
    buf: Seq<u8>,
    w: int,
    x0: int,
    x1: int,
    y: int,
    y1: int,
    c: Seq<u8>,
) -> Seq<u8>
    decreases y1 - y,
{
    if y >= y1 {
        buf
    } else {
        fill_box_spec(fill_row_spec(buf, w, x0, x1, y, c), w, x0, x1, y + 1, y1, c)
    }
}

proof fn lemma_put_rgb_fits(buf: Seq<u8>, w: int, h: int, x: int, y: int, c: Seq<u8>)
    requires
        buf.len() == w * h * 3,
        0 <= x < w,
        0 <= y < h,
    ensures
        0 <= pixel_offset(w, x, y, 3),
        pixel_offset(w, x, y, 3) + 3 <= buf.len(),
{
    assert(0 <= (y * w + x) * 3 && (y * w + x) * 3 + 3 <= w * h * 3) by (nonlinear_arith)
        requires
            0 <= x < w,
            0 <= y < h,
    ;
}

/// Set the pixels of the box `[x0, x1) x [y0, y1)` of a `w` x `h` RGB
/// image to `color`.
fn fill_box(
    img: &mut RgbPicture,
    w: u32,
    h: u32,
    x0: u32,
    x1: u32,
    y0: u32,
    y1: u32,
    color: [u8; 3],
)
    requires
        picture_is(*old(img), w as int, h as int),
        x1 <= w,
        y1 <= h,
    ensures
        picture_is(*final(img), w as int, h as int),
        picture_bytes(*final(img)) == fill_box_spec(
            picture_bytes(*old(img)),
            w as int,
            x0 as int,
            x1 as int,
            y0 as int,
            y1 as int,
            color@,
        ),
{
    let ghost target = fill_box_spec(
        picture_bytes(*img),
        w as int,
        x0 as int,
        x1 as int,
        y0 as int,
        y1 as int,
        color@,
    );
    let mut y = y0;
    while y < y1
        invariant
            x1 <= w,
            y1 <= h,
            y0 <= y,
            y0 < y1 ==> y <= y1,
            picture_is(*img, w as int, h as int),
            fill_box_spec(
                picture_bytes(*img),
                w as int,
                x0 as int,
                x1 as int,
                y as int,
                y1 as int,
                color@,
            ) == target,
        decreases y1 - y,
    {
        let ghost row_target = fill_row_spec(
            picture_bytes(*img),
            w as int,
            x0 as int,
            x1 as int,
            y as int,
            color@,
        );
        let mut x = x0;
        while x < x1
            invariant
                x1 <= w,
                y < y1 <= h,
                x0 <= x,
                x0 < x1 ==> x <= x1,
                picture_is(*img, w as int, h as int),
                fill_row_spec(picture_bytes(*img), w as int, x as int, x1 as int, y as int, color@)
                    == row_target,
            decreases x1 - x,
        {
            proof {
                lemma_put_rgb_fits(picture_bytes(*img), w as int, h as int, x as int, y as int, color@);
            }
            picture_put(img, x, y, color);
            x = x + 1;
        }
        y = y + 1;
    }
}

/// `buf` after drawing grid cell `(gx, gy)` as a `scale` x `scale` square
/// in colour `c`, clipped to the `w` x `h` image; cells left of or above
/// the image, or starting past its edge, draw nothing.
pub open spec fn plot_cell_spec(
    buf: Seq<u8>,
    w: int,
    h: int,
    gx: int,
    gy: int,
    scale: int,
    c: Seq<u8>,
) -> Seq<u8> {
    if gx < 0 || gy < 0 {
        buf
    } else {
        let x0 = gx * scale;
        let y0 = gy * scale;
        if x0 >= w || y0 >= h {
            buf
        } else {
            let x1 = if x0 + scale < w {
                x0 + scale
            } else {
                w
            };
            let y1 = if y0 + scale < h {
                y0 + scale
            } else {
                h
            };
            fill_box_spec(buf, w, x0, x1, y0, y1, c)
        }
    }
}

/// Draw grid cell `(gx, gy)` as a `scale` x `scale` square of `color`.
pub fn plot_cell(img: &mut RgbPicture, gx: i32, gy: i32, scale: u32, color: [u8; 3])
    requires
        picture_bytes(*old(img)).len() == picture_size(*old(img)).0 * picture_size(
            *old(img),
        ).1 * 3,
    ensures
        picture_size(*final(img)) == picture_size(*old(img)),
        picture_bytes(*final(img)).len() == picture_bytes(*old(img)).len(),
        picture_bytes(*final(img)) == plot_cell_spec(
            picture_bytes(*old(img)),
            picture_size(*old(img)).0 as int,
            picture_size(*old(img)).1 as int,
            gx as int,
            gy as int,
            scale as int,
            color@,
        ),
{
    if gx < 0 || gy < 0 {
        return;
    }
    let (w, h) = picture_dimensions(img);
    proof {
        assert(0 <= gx as int * scale as int <= 0x7fff_ffff * 0xffff_ffff) by (nonlinear_arith)
            requires
                0 <= gx <= 0x7fff_ffff,
                0 <= scale <= 0xffff_ffff,
        ;
        assert(0 <= gy as int * scale as int <= 0x7fff_ffff * 0xffff_ffff) by (nonlinear_arith)
            requires
                0 <= gy <= 0x7fff_ffff,
                0 <= scale <= 0xffff_ffff,
        ;
    }
    let x0 = (gx as u64) * (scale as u64);
    let y0 = (gy as u64) * (scale as u64);
    if x0 >= w as u64 || y0 >= h as u64 {
        return;
    }
    let x1 = if x0 + (scale as u64) < w as u64 {
        x0 + scale as u64
    } else {
        w as u64
    };
    let y1 = if y0 + (scale as u64) < h as u64 {
        y0 + scale as u64
    } else {
        h as u64
    };
    fill_box(img, w, h, x0 as u32, x1 as u32, y0 as u32, y1 as u32, color);
}

/// `buf` with every cell of `cells` drawn in colour `c`, in order.
pub open spec fn plot_cells_rgb(
    buf: Seq<u8>,
    w: int,
    h: int,
    cells: Seq<(i32, i32)>,
    scale: int,
    c: Seq<u8>,
) -> Seq<u8>
    decreases cells.len(),
{
    if cells.len() == 0 {
        buf
    } else {
        plot_cell_spec(
            plot_cells_rgb(buf, w, h, cells.drop_last(), scale, c),
            w,
            h,
            cells.last().0 as int,
            cells.last().1 as int,
            scale,
            c,
        )
    }
}

fn plot_cells_all(
    img: &mut RgbPicture,
    w: u32,
    h: u32,
    cells: &[(i32, i32)],
    scale: u32,
    color: [u8; 3],
)
    requires
        picture_is(*old(img), w as int, h as int),
    ensures
        picture_is(*final(img), w as int, h as int),
        picture_bytes(*final(img)) == plot_cells_rgb(
            picture_bytes(*old(img)),
            w as int,
            h as int,
            cells@,
            scale as int,
            color@,
        ),
{
    let ghost orig = picture_bytes(*img);
    let mut i: usize = 0;
    while i < cells.len()
        invariant
            i <= cells@.len(),
            picture_is(*img, w as int, h as int),
            picture_bytes(*img) == plot_cells_rgb(
                orig,
                w as int,
                h as int,
                cells@.take(i as int),
                scale as int,
                color@,
            ),
        decreases cells@.len() - i,
    {
        let (gx, gy) = cells[i];
        plot_cell(img, gx, gy, scale, color);
        assert(cells@.take(i + 1).drop_last() =~= cells@.take(i as int));
        i = i + 1;
    }
    assert(cells@.take(cells@.len() as int) =~= cells@);
}

/// A white `w` x `h` RGB image.
fn white_image(w: u32, h: u32) -> (img: RgbPicture)
    requires
        w as int * h as int * 3 <= usize::MAX,
    ensures
        picture_is(img, w as int, h as int),
        picture_bytes(img) == Seq::new((w * h * 3) as nat, |i: int| 255u8),
{
    let white: [u8; 3] = [255, 255, 255];
    let img = picture_from_pixel(w, h, white);
    assert(picture_bytes(img) =~= Seq::new((w * h * 3) as nat, |i: int| 255u8));
    img
}

/// Scale of the layout preview: at least one pixel per cell.
pub open spec fn effective_scale(scale: u32) -> int {
    if scale < 1 {
        1
    } else {
        scale as int
    }
}

/// The layout preview image: a white canvas of `scale` x `scale` pixels
/// per cell, fill cells in grey, text cells in black over them.
pub open spec fn layout_png_spec(
    canvas_w: u32,
    canvas_h: u32,
    scale: u32,
    fill: Seq<(i32, i32)>,
    text: Seq<(i32, i32)>,
) -> Seq<u8> {
    let s = effective_scale(scale);
    let w = canvas_w * s;
    let h = canvas_h * s;
    let white = Seq::new((w * h * 3) as nat, |i: int| 255u8);
    let with_fill = plot_cells_rgb(white, w, h, fill, s, seq![160u8, 160u8, 160u8]);
    plot_cells_rgb(with_fill, w, h, text, s, seq![0u8, 0u8, 0u8])
}

/// Render the layout preview: each grid cell becomes `scale` x `scale`
/// pixels (at least one); fill is grey, drawn first, so text overlaps it in
/// black.
pub fn layout_png(
    canvas_w: u32,
    canvas_h: u32,
    scale: u32,
    fill_cells: &[(i32, i32)],
    text_cells: &[(i32, i32)],
) -> (img: RgbPicture)
    requires
        canvas_w * effective_scale(scale) <= u32::MAX,
        canvas_h * effective_scale(scale) <= u32::MAX,
        canvas_w * effective_scale(scale) * canvas_h * effective_scale(scale) * 3 <= usize::MAX,
    ensures
        picture_size(img) == (
            (canvas_w * effective_scale(scale)) as nat,
            (canvas_h * effective_scale(scale)) as nat,
        ),
        picture_bytes(img) == layout_png_spec(canvas_w, canvas_h, scale, fill_cells@, text_cells@),
{
    let s = if scale < 1 {
        1
    } else {
        scale
    };
    let w = canvas_w * s;
    let h = canvas_h * s;
    proof {
        assert(0 <= w as int * h as int * 3) by (nonlinear_arith);
        assert(w as int * h as int * 3 == canvas_w * effective_scale(scale) * canvas_h
            * effective_scale(scale) * 3) by (nonlinear_arith)
            requires
                w == canvas_w * effective_scale(scale),
                h == canvas_h * effective_scale(scale),
        ;
    }
    let mut img = white_image(w, h);
    plot_cells_all(&mut img, w, h, fill_cells, s, [160, 160, 160]);
    plot_cells_all(&mut img, w, h, text_cells, s, [0, 0, 0]);
    proof {
        let grey: [u8; 3] = [160, 160, 160];
        let black: [u8; 3] = [0, 0, 0];
        assert(grey@ =~= seq![160u8, 160u8, 160u8]);
        assert(black@ =~= seq![0u8, 0u8, 0u8]);
    }
    img
}

/// Why a GDS library could not be rendered.
#[derive(Debug, Clone, Copy, PartialEq, Eq)]
pub enum RenderError {
    /// The library holds no boundary element.
    NoBoundaries,
}

pub open spec fn min_int(a: int, b: int) -> int {
    if a <= b {
        a
    } else {
        b
    }
}

pub open spec fn max_int(a: int, b: int) -> int {
    if a >= b {
        a
    } else {
        b
    }
}

/// Division rounding toward zero, as Rust's `/` on signed integers.
pub open spec fn trunc_div(a: int, b: int) -> int {
    if a >= 0 {
        a / b
    } else {
        -((-a) / b)
    }
}

pub open spec fn xs_of(xy: Seq<(i32, i32)>) -> Seq<int> {
    xy.map_values(|p: (i32, i32)| p.0 as int)
}

pub open spec fn ys_of(xy: Seq<(i32, i32)>) -> Seq<int> {
    xy.map_values(|p: (i32, i32)| p.1 as int)
}

/// The bounding box `(x0, y0, x1, y1)` of a boundary's points.
pub open spec fn bbox_of(xy: Seq<(i32, i32)>) -> (int, int, int, int) {
    (xs_of(xy).min(), ys_of(xy).min(), xs_of(xy).max(), ys_of(xy).max())
}

/// The extent of all boundaries: smallest and largest corner coordinates
/// (starting from the extreme 32-bit values).
pub open spec fn extent_min_x(bs: Seq<Boundary>) -> int
    decreases bs.len(),
{
    if bs.len() == 0 {
        i32::MAX as int
    } else {
        min_int(extent_min_x(bs.drop_last()), bbox_of(bs.last().xy@).0)
    }
}

pub open spec fn extent_min_y(bs: Seq<Boundary>) -> int
    decreases bs.len(),
{
    if bs.len() == 0 {
        i32::MAX as int
    } else {
        min_int(extent_min_y(bs.drop_last()), bbox_of(bs.last().xy@).1)
    }
}

pub open spec fn extent_max_x(bs: Seq<Boundary>) -> int
    decreases bs.len(),
{
    if bs.len() == 0 {
        i32::MIN as int
    } else {
        max_int(extent_max_x(bs.drop_last()), bbox_of(bs.last().xy@).2)
    }
}

pub open spec fn extent_max_y(bs: Seq<Boundary>) -> int
    decreases bs.len(),
{
    if bs.len() == 0 {
        i32::MIN as int
    } else {
        max_int(extent_max_y(bs.drop_last()), bbox_of(bs.last().xy@).3)
    }
}

/// The drawing frame of a rendered library: the padded extent in nm, its
/// size in grid cells (at least one), and the image size in pixels.
pub struct RenderFrame {
    pub min_x: int,
    pub min_y: int,
    pub max_x: int,
    pub max_y: int,
    pub w_cells: int,
    pub h_cells: int,
    pub w_px: int,
    pub h_px: int,
}

pub open spec fn render_frame(bs: Seq<Boundary>, grid: int, scale: int, padding: int) -> RenderFrame {
    let min_x = extent_min_x(bs) - padding;
    let min_y = extent_min_y(bs) - padding;
    let max_x = extent_max_x(bs) + padding;
    let max_y = extent_max_y(bs) + padding;
    let w_nm = max_int(max_x - min_x, 1);
    let h_nm = max_int(max_y - min_y, 1);
    let w_cells = max_int(w_nm / grid, 1);
    let h_cells = max_int(h_nm / grid, 1);
    RenderFrame {
        min_x,
        min_y,
        max_x,
        max_y,
        w_cells,
        h_cells,
        w_px: w_cells * scale,
        h_px: h_cells * scale,
    }
}

/// Colour of a boundary: black on the text layer, grey on the fill layer,
/// blue on any other layer.
pub open spec fn layer_color(b: Boundary, layers: LayerConfig) -> Seq<u8> {
    if b.layer == layers.text_layer && b.datatype == layers.text_datatype {
        seq![0u8, 0u8, 0u8]
    } else if b.layer == layers.fill_layer && b.datatype == layers.fill_datatype {
        seq![160u8, 160u8, 160u8]
    } else {
        seq![40u8, 100u8, 200u8]
    }
}

/// Intermediate values of the pixel box of one boundary: its corners in
/// cells from the frame's corner, with Y flipped (GDS Y goes up, image Y
/// goes down).
pub struct CellBox {
    pub gx0: int,
    pub gy0: int,
    pub gx1: int,
    pub gy1: int,
    pub flipped_y0: int,
    pub flipped_y1: int,
}

pub open spec fn cell_box(b: Boundary, f: RenderFrame, grid: int) -> CellBox {
    let bb = bbox_of(b.xy@);
    let gx0 = trunc_div(bb.0 - f.min_x, grid);
    let gy0 = trunc_div(bb.1 - f.min_y, grid);
    let gx1 = trunc_div(bb.2 - f.min_x, grid);
    let gy1 = trunc_div(bb.3 - f.min_y, grid);
    CellBox { gx0, gy0, gx1, gy1, flipped_y0: f.h_cells - gy1, flipped_y1: f.h_cells - gy0 }
}

/// The pixel box `(px0, px1, py0, py1)` a boundary is drawn into.
pub open spec fn pixel_box(b: Boundary, f: RenderFrame, grid: int, scale: u32) -> (int, int, int, int) {
    let c = cell_box(b, f, grid);
    let si = (scale as i32) as int;
    let px0 = max_int(c.gx0 * si, 0);
    let py0 = max_int(c.flipped_y0, 0) * scale;
    let px1 = max_int(min_int(c.gx1 * si, (f.w_px as i32) as int), 0);
    let py1 = min_int(max_int(c.flipped_y1, 0) * scale, f.h_px);
    (px0, px1, py0, py1)
}

/// The 32-bit arithmetic of drawing boundary `b` stays in range.
pub open spec fn box_fits(b: Boundary, f: RenderFrame, grid: int, scale: u32) -> bool {
    let bb = bbox_of(b.xy@);
    let c = cell_box(b, f, grid);
    let si = (scale as i32) as int;
    &&& b.xy@.len() > 0
    &&& i32::MIN <= bb.0 - f.min_x <= i32::MAX
    &&& i32::MIN <= bb.1 - f.min_y <= i32::MAX
    &&& i32::MIN <= bb.2 - f.min_x <= i32::MAX
    &&& i32::MIN <= bb.3 - f.min_y <= i32::MAX
    &&& i32::MIN <= c.gx0 * si <= i32::MAX
    &&& i32::MIN <= c.gx1 * si <= i32::MAX
    &&& i32::MIN <= c.flipped_y0 <= i32::MAX
    &&& i32::MIN <= c.flipped_y1 <= i32::MAX
    &&& max_int(c.flipped_y0, 0) * scale <= u32::MAX
    &&& max_int(c.flipped_y1, 0) * scale <= u32::MAX
}

/// The 32-bit arithmetic of rendering the boundaries stays in range, and
/// the image fits in memory.
pub open spec fn render_fits(bs: Seq<Boundary>, grid: int, scale: u32, padding: int) -> bool {
    let f = render_frame(bs, grid, scale as int, padding);
    &&& forall|i: int| 0 <= i < bs.len() ==> (#[trigger] bs[i]).xy@.len() > 0
    &&& i32::MIN <= f.min_x <= i32::MAX
    &&& i32::MIN <= f.min_y <= i32::MAX
    &&& i32::MIN <= f.max_x <= i32::MAX
    &&& i32::MIN <= f.max_y <= i32::MAX
    &&& i32::MIN <= f.max_x - f.min_x <= i32::MAX
    &&& i32::MIN <= f.max_y - f.min_y <= i32::MAX
    &&& f.w_px <= u32::MAX
    &&& f.h_px <= u32::MAX
    &&& f.w_px * f.h_px * 3 <= usize::MAX
    &&& forall|i: int| 0 <= i < bs.len() ==> box_fits(#[trigger] bs[i], f, grid, scale)
}

/// `buf` with every boundary's pixel box filled in its layer colour.
pub open spec fn draw_boundaries_spec(
    buf: Seq<u8>,
    bs: Seq<Boundary>,
    f: RenderFrame,
    grid: int,
    scale: u32,
    layers: LayerConfig,
) -> Seq<u8>
    decreases bs.len(),
{
    if bs.len() == 0 {
        buf
    } else {
        let b = bs.last();
        let p = pixel_box(b, f, grid, scale);
        fill_box_spec(
            draw_boundaries_spec(buf, bs.drop_last(), f, grid, scale, layers),
            f.w_px,
            p.0,
            p.1,
            p.2,
            p.3,
            layer_color(b, layers),
        )
    }
}

/// The rendered image of the boundaries: white, each boundary's bounding
/// box filled in its layer colour.
pub open spec fn gds_png_spec(
    bs: Seq<Boundary>,
    layers: LayerConfig,
    grid: int,
    scale: u32,
    padding: int,
) -> Seq<u8> {
    let f = render_frame(bs, grid, scale as int, padding);
    let white = Seq::new((f.w_px * f.h_px * 3) as nat, |i: int| 255u8);
    draw_boundaries_spec(white, bs, f, grid, scale, layers)
}

/// The bounding box of a boundary's points.
fn boundary_bbox(b: &Boundary) -> (r: (i32, i32, i32, i32))
    requires
        b.xy@.len() > 0,
    ensures
        (r.0 as int, r.1 as int, r.2 as int, r.3 as int) == bbox_of(b.xy@),
{
    let xy = &b.xy;
    let mut x0 = xy[0].0;
    let mut y0 = xy[0].1;
    let mut x1 = xy[0].0;
    let mut y1 = xy[0].1;
    let ghost xs = xs_of(xy@);
    let ghost ys = ys_of(xy@);
    assert(xs[0] == x0 && ys[0] == y0);
    let mut i: usize = 1;
    while i < xy.len()
        invariant
            1 <= i <= xy@.len(),
            xs == xs_of(xy@),
            ys == ys_of(xy@),
            forall|k: int| 0 <= k < i ==> x0 <= #[trigger] xs[k] <= x1,
            forall|k: int| 0 <= k < i ==> y0 <= #[trigger] ys[k] <= y1,
            exists|k: int| 0 <= k < i && xs[k] == x0,
            exists|k: int| 0 <= k < i && xs[k] == x1,
            exists|k: int| 0 <= k < i && ys[k] == y0,
            exists|k: int| 0 <= k < i && ys[k] == y1,
        decreases xy@.len() - i,
    {
        let (x, y) = xy[i];
        assert(xs[i as int] == x && ys[i as int] == y);
        if x < x0 {
            x0 = x;
        }
        if x > x1 {
            x1 = x;
        }
        if y < y0 {
            y0 = y;
        }
        if y > y1 {
            y1 = y;
        }
        i = i + 1;
    }
    proof {
        xs.min_ensures();
        xs.max_ensures();
        ys.min_ensures();
        ys.max_ensures();
        let a = choose|k: int| 0 <= k < i && xs[k] == x0;
        let b2 = choose|k: int| 0 <= k < i && xs[k] == x1;
        let c = choose|k: int| 0 <= k < i && ys[k] == y0;
        let d = choose|k: int| 0 <= k < i && ys[k] == y1;
        assert(xs.contains(xs.min()));
        assert(xs.contains(xs.max()));
        assert(ys.contains(ys.min()));
        assert(ys.contains(ys.max()));
        assert(xs.min() <= xs[a]);
        assert(xs[b2] <= xs.max());
        assert(ys.min() <= ys[c]);
        assert(ys[d] <= ys.max());
    }
    (x0, y0, x1, y1)
}

/// Truncating division by a positive divisor.
fn div_toward_zero(a: i32, b: i32) -> (q: i32)
    requires
        b > 0,
    ensures
        q == trunc_div(a as int, b as int),
{
    let a64 = a as i64;
    let b64 = b as i64;
    if a64 >= 0 {
        (a64 / b64) as i32
    } else {
        let q = (-a64) / b64;
        proof {
            assert(q <= -(a as int)) by (nonlinear_arith)
                requires
                    q == (-(a as int)) / (b as int),
                    b >= 1,
                    a < 0,
            ;
        }
        (-q) as i32
    }
}

/// `v` lies in the range of `i32`.
fn within_i32(v: i128) -> (r: bool)
    ensures
        r == (i32::MIN <= v <= i32::MAX),
{
    -2147483648i128 <= v && v <= 2147483647i128
}

/// Division rounding toward zero, on wide integers.
fn trunc_div_wide(a: i128, b: i128) -> (q: i128)
    requires
        b > 0,
        -0x1_0000_0000_0000 <= a <= 0x1_0000_0000_0000,
    ensures
        q == trunc_div(a as int, b as int),
{
    if a >= 0 {
        a / b
    } else {
        let q = (-a) / b;
        proof {
            assert(0 <= q <= -(a as int)) by (nonlinear_arith)
                requires
                    q == (-(a as int)) / (b as int),
                    b >= 1,
                    a < 0,
            ;
        }
        -q
    }
}

/// Whether drawing boundary `b` in frame `f` keeps its arithmetic in range.
fn box_fits_holds(
    b: &Boundary,
    min_x: i32,
    min_y: i32,
    h_cells: u32,
    w_px: u32,
    grid_nm: i32,
    scale: u32,
    Ghost(f): Ghost<RenderFrame>,
) -> (r: bool)
    requires
        grid_nm >= 1,
        b.xy@.len() > 0,
        f.min_x == min_x,
        f.min_y == min_y,
        f.h_cells == h_cells,
        f.w_px == w_px,
    ensures
        r == box_fits(*b, f, grid_nm as int, scale),
{
    let (x0, y0, x1, y1) = boundary_bbox(b);
    let d0 = x0 as i128 - min_x as i128;
    let d1 = y0 as i128 - min_y as i128;
    let d2 = x1 as i128 - min_x as i128;
    let d3 = y1 as i128 - min_y as i128;
    if !(within_i32(d0) && within_i32(d1) && within_i32(d2) && within_i32(d3)) {
        return false;
    }
    let g = grid_nm as i128;
    let gx0 = trunc_div_wide(d0, g);
    let gy0 = trunc_div_wide(d1, g);
    let gx1 = trunc_div_wide(d2, g);
    let gy1 = trunc_div_wide(d3, g);
    proof {
        assert(-0x8000_0000 <= gx0 <= 0x8000_0000 && -0x8000_0000 <= gx1 <= 0x8000_0000
            && -0x8000_0000 <= gy0 <= 0x8000_0000 && -0x8000_0000 <= gy1 <= 0x8000_0000) by {
            lemma_trunc_div_bound(d0 as int, g as int);
            lemma_trunc_div_bound(d1 as int, g as int);
            lemma_trunc_div_bound(d2 as int, g as int);
            lemma_trunc_div_bound(d3 as int, g as int);
        }
    }
    let si = (scale as i32) as i128;
    proof {
        assert(-0x8000_0000 * 0x8000_0000 <= gx0 * si <= 0x8000_0000 * 0x8000_0000)
            by (nonlinear_arith)
            requires
                -0x8000_0000 <= gx0 <= 0x8000_0000,
                -0x8000_0000 <= si <= 0x8000_0000,
        ;
        assert(-0x8000_0000 * 0x8000_0000 <= gx1 * si <= 0x8000_0000 * 0x8000_0000)
            by (nonlinear_arith)
            requires
                -0x8000_0000 <= gx1 <= 0x8000_0000,
                -0x8000_0000 <= si <= 0x8000_0000,
        ;
    }
    let a0 = gx0 * si;
    let a1 = gx1 * si;
    let fy0 = h_cells as i128 - gy1;
    let fy1 = h_cells as i128 - gy0;
    if !(within_i32(a0) && within_i32(a1) && within_i32(fy0) && within_i32(fy1)) {
        return false;
    }
    let c0 = if fy0 < 0 {
        0
    } else {
        fy0
    };
    let c1 = if fy1 < 0 {
        0
    } else {
        fy1
    };
    proof {
        assert(0 <= c0 * scale <= 0x8000_0000 * 0x1_0000_0000) by (nonlinear_arith)
            requires
                0 <= c0 <= 0x8000_0000,
                0 <= scale <= 0xffff_ffff,
        ;
        assert(0 <= c1 * scale <= 0x8000_0000 * 0x1_0000_0000) by (nonlinear_arith)
            requires
                0 <= c1 <= 0x8000_0000,
                0 <= scale <= 0xffff_ffff,
        ;
    }
    c0 * (scale as i128) <= 4294967295i128 && c1 * (scale as i128) <= 4294967295i128
}

proof fn lemma_trunc_div_bound(a: int, b: int)
    requires
        b >= 1,
        -0x8000_0000 <= a <= 0x8000_0000,
    ensures
        -0x8000_0000 <= trunc_div(a, b) <= 0x8000_0000,
{
    if a >= 0 {
        assert(0 <= a / b <= a) by (nonlinear_arith)
            requires
                0 <= a,
                b >= 1,
        ;
    } else {
        assert(0 <= (-a) / b <= -a) by (nonlinear_arith)
            requires
                0 < -a,
                b >= 1,
        ;
    }
}

/// Whether rendering the boundaries keeps every 32-bit computation in range
/// and the image within memory (the condition `render_fits` of
/// `render_boundaries`).
pub fn render_fits_holds(bs: &[Boundary], grid_nm: i32, scale: u32, padding_nm: i32) -> (r: bool)
    requires
        grid_nm >= 1,
    ensures
        r == render_fits(bs@, grid_nm as int, scale, padding_nm as int),
{
    let ghost f = render_frame(bs@, grid_nm as int, scale as int, padding_nm as int);
    let mut k: usize = 0;
    while k < bs.len()
        invariant
            k <= bs@.len(),
            forall|i: int| 0 <= i < k ==> (#[trigger] bs@[i]).xy@.len() > 0,
        decreases bs@.len() - k,
    {
        if bs[k].xy.len() == 0 {
            return false;
        }
        k = k + 1;
    }
    let mut min_x = i32::MAX;
    let mut min_y = i32::MAX;
    let mut max_x = i32::MIN;
    let mut max_y = i32::MIN;
    let mut k: usize = 0;
    while k < bs.len()
        invariant
            k <= bs@.len(),
            forall|i: int| 0 <= i < bs@.len() ==> (#[trigger] bs@[i]).xy@.len() > 0,
            min_x == extent_min_x(bs@.take(k as int)),
            min_y == extent_min_y(bs@.take(k as int)),
            max_x == extent_max_x(bs@.take(k as int)),
            max_y == extent_max_y(bs@.take(k as int)),
        decreases bs@.len() - k,
    {
        assert(bs@[k as int].xy@.len() > 0);
        let (x0, y0, x1, y1) = boundary_bbox(&bs[k]);
        if x0 < min_x {
            min_x = x0;
        }
        if y0 < min_y {
            min_y = y0;
        }
        if x1 > max_x {
            max_x = x1;
        }
        if y1 > max_y {
            max_y = y1;
        }
        assert(bs@.take(k + 1).drop_last() =~= bs@.take(k as int));
        k = k + 1;
    }
    assert(bs@.take(bs@.len() as int) =~= bs@);
    let lo_x = min_x as i128 - padding_nm as i128;
    let lo_y = min_y as i128 - padding_nm as i128;
    let hi_x = max_x as i128 + padding_nm as i128;
    let hi_y = max_y as i128 + padding_nm as i128;
    assert(lo_x == f.min_x && lo_y == f.min_y && hi_x == f.max_x && hi_y == f.max_y);
    if !(within_i32(lo_x) && within_i32(lo_y) && within_i32(hi_x) && within_i32(hi_y)
        && within_i32(hi_x - lo_x) && within_i32(hi_y - lo_y)) {
        return false;
    }
    let dx = hi_x - lo_x;
    let dy = hi_y - lo_y;
    let w_nm = if dx < 1 {
        1
    } else {
        dx
    };
    let h_nm = if dy < 1 {
        1
    } else {
        dy
    };
    let g = grid_nm as i128;
    let wc = w_nm / g;
    let hc = h_nm / g;
    proof {
        assert(0 <= wc <= w_nm && 0 <= hc <= h_nm) by (nonlinear_arith)
            requires
                wc == w_nm / g,
                hc == h_nm / g,
                1 <= w_nm,
                1 <= h_nm,
                g >= 1,
        ;
    }
    let w_cells: i128 = if wc < 1 {
        1
    } else {
        wc
    };
    let h_cells: i128 = if hc < 1 {
        1
    } else {
        hc
    };
    assert(w_cells == f.w_cells && h_cells == f.h_cells);
    proof {
        assert(0 <= w_cells * scale <= 0x1_0000_0000 * 0x1_0000_0000) by (nonlinear_arith)
            requires
                1 <= w_cells <= 0x1_0000_0000,
                0 <= scale <= 0xffff_ffff,
        ;
        assert(0 <= h_cells * scale <= 0x1_0000_0000 * 0x1_0000_0000) by (nonlinear_arith)
            requires
                1 <= h_cells <= 0x1_0000_0000,
                0 <= scale <= 0xffff_ffff,
        ;
    }
    let w_px = w_cells * (scale as i128);
    let h_px = h_cells * (scale as i128);
    if !(w_px <= 4294967295i128 && h_px <= 4294967295i128) {
        return false;
    }
    proof {
        assert(0 <= w_px * h_px * 3 <= 0x1_0000_0000 * 0x1_0000_0000 * 3) by (nonlinear_arith)
            requires
                0 <= w_px <= 0xffff_ffff,
                0 <= h_px <= 0xffff_ffff,
        ;
    }
    if !(w_px * h_px * 3 <= usize::MAX as i128) {
        return false;
    }
    let mut k: usize = 0;
    while k < bs.len()
        invariant
            k <= bs@.len(),
            grid_nm >= 1,
            f == render_frame(bs@, grid_nm as int, scale as int, padding_nm as int),
            forall|i: int| 0 <= i < bs@.len() ==> (#[trigger] bs@[i]).xy@.len() > 0,
            f.min_x == lo_x,
            f.min_y == lo_y,
            f.h_cells == h_cells,
            f.w_px == w_px,
            i32::MIN <= lo_x <= i32::MAX,
            i32::MIN <= lo_y <= i32::MAX,
            0 <= h_cells <= u32::MAX,
            0 <= w_px <= u32::MAX,
            forall|i: int| 0 <= i < k ==> box_fits(#[trigger] bs@[i], f, grid_nm as int, scale),
        decreases bs@.len() - k,
    {
        assert(bs@[k as int].xy@.len() > 0);
        if !box_fits_holds(
            &bs[k],
            lo_x as i32,
            lo_y as i32,
            h_cells as u32,
            w_px as u32,
            grid_nm,
            scale,
            Ghost(f),
        ) {
            assert(!box_fits(bs@[k as int], f, grid_nm as int, scale));
            assert(!render_fits(bs@, grid_nm as int, scale, padding_nm as int));
            return false;
        }
        k = k + 1;
    }
    true
}

/// Render the boundaries of a GDS library (read back from disk) as an
/// image: the extent of all boundaries, padded by `padding_nm` on every
/// side, is cut into cells of `grid_nm`, each `scale` x `scale` pixels; each
/// boundary's bounding box is filled in its layer's colour. A library with
/// no boundary is refused.
pub fn render_boundaries(
    bs: &[Boundary],
    layers: LayerConfig,
    grid_nm: i32,
    scale: u32,
    padding_nm: i32,
) -> (r: Result<RgbPicture, RenderError>)
    requires
        grid_nm >= 1,
        bs@.len() > 0 ==> render_fits(bs@, grid_nm as int, scale, padding_nm as int),
    ensures
        bs@.len() == 0 <==> r is Err,
        r matches Err(e) ==> e == RenderError::NoBoundaries,
        r matches Ok(img) ==> {
            let f = render_frame(bs@, grid_nm as int, scale as int, padding_nm as int);
            &&& picture_size(img) == (f.w_px as nat, f.h_px as nat)
            &&& picture_bytes(img) == gds_png_spec(
                bs@,
                layers,
                grid_nm as int,
                scale,
                padding_nm as int,
            )
        },
{
    if bs.len() == 0 {
        return Err(RenderError::NoBoundaries);
    }
    let ghost f = render_frame(bs@, grid_nm as int, scale as int, padding_nm as int);
    let mut min_x = i32::MAX;
    let mut min_y = i32::MAX;
    let mut max_x = i32::MIN;
    let mut max_y = i32::MIN;
    let mut k: usize = 0;
    while k < bs.len()
        invariant
            k <= bs@.len(),
            forall|i: int| 0 <= i < bs@.len() ==> (#[trigger] bs@[i]).xy@.len() > 0,
            min_x == extent_min_x(bs@.take(k as int)),
            min_y == extent_min_y(bs@.take(k as int)),
            max_x == extent_max_x(bs@.take(k as int)),
            max_y == extent_max_y(bs@.take(k as int)),
        decreases bs@.len() - k,
    {
        assert(bs@[k as int].xy@.len() > 0);
        let (x0, y0, x1, y1) = boundary_bbox(&bs[k]);
        if x0 < min_x {
            min_x = x0;
        }
        if y0 < min_y {
            min_y = y0;
        }
        if x1 > max_x {
            max_x = x1;
        }
        if y1 > max_y {
            max_y = y1;
        }
        assert(bs@.take(k + 1).drop_last() =~= bs@.take(k as int));
        k = k + 1;
    }
    assert(bs@.take(bs@.len() as int) =~= bs@);
    let min_x = min_x - padding_nm;
    let min_y = min_y - padding_nm;
    let max_x = max_x + padding_nm;
    let max_y = max_y + padding_nm;
    let dx = max_x - min_x;
    let dy = max_y - min_y;
    let w_nm = if dx < 1 {
        1
    } else {
        dx
    };
    let h_nm = if dy < 1 {
        1
    } else {
        dy
    };
    let wc = w_nm / grid_nm;
    let hc = h_nm / grid_nm;
    let w_cells: u32 = if wc < 1 {
        1
    } else {
        wc as u32
    };
    let h_cells: u32 = if hc < 1 {
        1
    } else {
        hc as u32
    };
    assert(w_cells == f.w_cells && h_cells == f.h_cells);
    let w_px = w_cells * scale;
    let h_px = h_cells * scale;
    proof {
        assert(0 <= w_px as int * h_px as int * 3) by (nonlinear_arith);
    }
    let mut img = white_image(w_px, h_px);
    let ghost white = picture_bytes(img);
    let mut k: usize = 0;
    while k < bs.len()
        invariant
            k <= bs@.len(),
            bs@.len() > 0,
            grid_nm >= 1,
            render_fits(bs@, grid_nm as int, scale, padding_nm as int),
            f == render_frame(bs@, grid_nm as int, scale as int, padding_nm as int),
            min_x == f.min_x,
            min_y == f.min_y,
            h_cells == f.h_cells,
            w_px == f.w_px,
            h_px == f.h_px,
            picture_is(img, w_px as int, h_px as int),
            picture_bytes(img) == draw_boundaries_spec(
                white,
                bs@.take(k as int),
                f,
                grid_nm as int,
                scale,
                layers,
            ),
        decreases bs@.len() - k,
    {
        let b = &bs[k];
        assert(box_fits(*b, f, grid_nm as int, scale));
        let (x0, y0, x1, y1) = boundary_bbox(b);
        let color: [u8; 3] = if b.layer == layers.text_layer && b.datatype == layers.text_datatype {
            [0, 0, 0]
        } else if b.layer == layers.fill_layer && b.datatype == layers.fill_datatype {
            [160, 160, 160]
        } else {
            [40, 100, 200]
        };
        assert(color@ =~= layer_color(*b, layers));
        let gx0 = div_toward_zero(x0 - min_x, grid_nm);
        let gy0 = div_toward_zero(y0 - min_y, grid_nm);
        let gx1 = div_toward_zero(x1 - min_x, grid_nm);
        let gy1 = div_toward_zero(y1 - min_y, grid_nm);
        let flipped_y0 = h_cells as i32 - gy1;
        let flipped_y1 = h_cells as i32 - gy0;
        let si = scale as i32;
        let a0 = gx0 * si;
        let px0: u32 = if a0 < 0 {
            0
        } else {
            a0 as u32
        };
        let fy0: u32 = if flipped_y0 < 0 {
            0
        } else {
            flipped_y0 as u32
        };
        let py0 = fy0 * scale;
        let a1 = gx1 * si;
        let wi = w_px as i32;
        let m1 = if a1 < wi {
            a1
        } else {
            wi
        };
        let px1: u32 = if m1 < 0 {
            0
        } else {
            m1 as u32
        };
        let fy1: u32 = if flipped_y1 < 0 {
            0
        } else {
            flipped_y1 as u32
        };
        let b1 = fy1 * scale;
        let py1 = if b1 < h_px {
            b1
        } else {
            h_px
        };
        let ghost pb = pixel_box(*b, f, grid_nm as int, scale);
        assert(px0 == pb.0 && px1 == pb.1 && py0 == pb.2 && py1 == pb.3);
        fill_box(&mut img, w_px, h_px, px0, px1, py0, py1, color);
        assert(bs@.take(k + 1).drop_last() =~= bs@.take(k as int));
        k = k + 1;
    }
    assert(bs@.take(bs@.len() as int) =~= bs@);
    Ok(img)
}

/// Byte `k` of RGB pixel `(px, py)` of an image `w` pixels wide.
pub open spec fn rgb_byte(buf: Seq<u8>, w: int, px: int, py: int, k: int) -> u8 {
    buf[pixel_offset(w, px, py, 3) + k]
}

/// Two byte positions of pixels inside a `w`-wide image are the same only
/// for the same pixel and channel.
proof fn lemma_rgb_offsets(w: int, h: int, px: int, py: int, k: int, x: int, y: int, j: int)
    requires
        0 <= px < w,
        0 <= x < w,
        0 <= py < h,
        0 <= y < h,
        0 <= k < 3,
        0 <= j < 3,
    ensures
        0 <= pixel_offset(w, px, py, 3) + k < w * h * 3,
        (pixel_offset(w, px, py, 3) + k == pixel_offset(w, x, y, 3) + j) <==> (px == x && py == y
            && k == j),
{
    lemma_cell_index_bounds(w, h, px, py);
    let a = cell_index(w, px, py);
    let b = cell_index(w, x, y);
    assert(0 <= a * 3 + k < w * h * 3) by (nonlinear_arith)
        requires
            0 <= a < w * h,
            0 <= k < 3,
    ;
    if pixel_offset(w, px, py, 3) + k == pixel_offset(w, x, y, 3) + j {
        assert(a == b && k == j) by (nonlinear_arith)
            requires
                a * 3 + k == b * 3 + j,
                0 <= k < 3,
                0 <= j < 3,
        ;
        lemma_cell_index_injective(w, px, py, x, y);
    }
}

proof fn lemma_put_rgb_at(
    buf: Seq<u8>,
    w: int,
    h: int,
    x: int,
    y: int,
    c: Seq<u8>,
    px: int,
    py: int,
    k: int,
)
    requires
        buf.len() == w * h * 3,
        c.len() == 3,
        0 <= x < w,
        0 <= y < h,
        0 <= px < w,
        0 <= py < h,
        0 <= k < 3,
    ensures
        put_rgb(buf, w, x, y, c).len() == buf.len(),
        rgb_byte(put_rgb(buf, w, x, y, c), w, px, py, k) == if px == x && py == y {
            c[k]
        } else {
            rgb_byte(buf, w, px, py, k)
        },
{
    lemma_put_rgb_fits(buf, w, h, x, y, c);
    lemma_rgb_offsets(w, h, px, py, k, x, y, 0);
    lemma_rgb_offsets(w, h, px, py, k, x, y, 1);
    lemma_rgb_offsets(w, h, px, py, k, x, y, 2);
}

proof fn lemma_fill_row_at(
    buf: Seq<u8>,
    w: int,
    h: int,
    x: int,
    x1: int,
    y: int,
    c: Seq<u8>,
    px: int,
    py: int,
    k: int,
)
    requires
        buf.len() == w * h * 3,
        c.len() == 3,
        0 <= x,
        x1 <= w,
        0 <= y < h,
        0 <= px < w,
        0 <= py < h,
        0 <= k < 3,
    ensures
        fill_row_spec(buf, w, x, x1, y, c).len() == buf.len(),
        rgb_byte(fill_row_spec(buf, w, x, x1, y, c), w, px, py, k) == if py == y && x <= px < x1 {
            c[k]
        } else {
            rgb_byte(buf, w, px, py, k)
        },
    decreases x1 - x,
{
    if x < x1 {
        lemma_put_rgb_at(buf, w, h, x, y, c, px, py, k);
        lemma_fill_row_at(put_rgb(buf, w, x, y, c), w, h, x + 1, x1, y, c, px, py, k);
    }
}

proof fn lemma_fill_box_at(
    buf: Seq<u8>,
    w: int,
    h: int,
    x0: int,
    x1: int,
    y: int,
    y1: int,
    c: Seq<u8>,
    px: int,
    py: int,
    k: int,
)
    requires
        buf.len() == w * h * 3,
        c.len() == 3,
        0 <= x0,
        x1 <= w,
        0 <= y,
        y1 <= h,
        0 <= px < w,
        0 <= py < h,
        0 <= k < 3,
    ensures
        fill_box_spec(buf, w, x0, x1, y, y1, c).len() == buf.len(),
        rgb_byte(fill_box_spec(buf, w, x0, x1, y, y1, c), w, px, py, k) == if y <= py < y1 && x0
            <= px < x1 {
            c[k]
        } else {
            rgb_byte(buf, w, px, py, k)
        },
    decreases y1 - y,
{
    if y < y1 {
        lemma_fill_row_at(buf, w, h, x0, x1, y, c, px, py, k);
        lemma_fill_box_at(
            fill_row_spec(buf, w, x0, x1, y, c),
            w,
            h,
            x0,
            x1,
            y + 1,
            y1,
            c,
            px,
            py,
            k,
        );
    }
}

/// Grid cell `cell`, drawn `s` x `s` pixels, contains pixel `(px, py)`.
pub open spec fn cell_has_pixel(cell: (i32, i32), s: int, px: int, py: int) -> bool {
    cell.0 >= 0 && cell.1 >= 0 && px / s == cell.0 && py / s == cell.1
}

proof fn lemma_plot_cell_at(
    buf: Seq<u8>,
    w: int,
    h: int,
    cell: (i32, i32),
    s: int,
    c: Seq<u8>,
    px: int,
    py: int,
    k: int,
)
    requires
        buf.len() == w * h * 3,
        c.len() == 3,
        s >= 1,
        0 <= px < w,
        0 <= py < h,
        0 <= k < 3,
    ensures
        plot_cell_spec(buf, w, h, cell.0 as int, cell.1 as int, s, c).len() == buf.len(),
        rgb_byte(plot_cell_spec(buf, w, h, cell.0 as int, cell.1 as int, s, c), w, px, py, k)
            == if cell_has_pixel(cell, s, px, py) {
            c[k]
        } else {
            rgb_byte(buf, w, px, py, k)
        },
{
    let gx = cell.0 as int;
    let gy = cell.1 as int;
    if gx >= 0 && gy >= 0 {
        let x0 = gx * s;
        let y0 = gy * s;
        assert((gx * s <= px < gx * s + s) <==> px / s == gx) by (nonlinear_arith)
            requires
                s >= 1,
                0 <= px,
                gx >= 0,
        {
            if px / s == gx {
                assert(px == s * (px / s) + px % s);
            }
            if gx * s <= px < gx * s + s {
                assert(px / s == gx) by {
                    vstd::arithmetic::div_mod::lemma_fundamental_div_mod_converse(px, s, gx, px - gx * s);
                }
            }
        }
        assert((gy * s <= py < gy * s + s) <==> py / s == gy) by (nonlinear_arith)
            requires
                s >= 1,
                0 <= py,
                gy >= 0,
        {
            if py / s == gy {
                assert(py == s * (py / s) + py % s);
            }
            if gy * s <= py < gy * s + s {
                assert(py / s == gy) by {
                    vstd::arithmetic::div_mod::lemma_fundamental_div_mod_converse(py, s, gy, py - gy * s);
                }
            }
        }
        if x0 < w && y0 < h {
            let x1 = if x0 + s < w {
                x0 + s
            } else {
                w
            };
            let y1 = if y0 + s < h {
                y0 + s
            } else {
                h
            };
            assert(0 <= x0 && 0 <= y0) by (nonlinear_arith)
                requires
                    gx >= 0,
                    gy >= 0,
                    s >= 1,
                    x0 == gx * s,
                    y0 == gy * s,
            ;
            lemma_fill_box_at(buf, w, h, x0, x1, y0, y1, c, px, py, k);
        }
    }
}

proof fn lemma_plot_cells_at(
    buf: Seq<u8>,
    w: int,
    h: int,
    cells: Seq<(i32, i32)>,
    s: int,
    c: Seq<u8>,
    px: int,
    py: int,
    k: int,
)
    requires
        buf.len() == w * h * 3,
        c.len() == 3,
        s >= 1,
        0 <= px < w,
        0 <= py < h,
        0 <= k < 3,
    ensures
        plot_cells_rgb(buf, w, h, cells, s, c).len() == buf.len(),
        rgb_byte(plot_cells_rgb(buf, w, h, cells, s, c), w, px, py, k) == if exists|j: int|
            0 <= j < cells.len() && cell_has_pixel(#[trigger] cells[j], s, px, py) {
            c[k]
        } else {
            rgb_byte(buf, w, px, py, k)
        },
    decreases cells.len(),
{
    if cells.len() > 0 {
        let front = cells.drop_last();
        lemma_plot_cells_at(buf, w, h, front, s, c, px, py, k);
        let mid = plot_cells_rgb(buf, w, h, front, s, c);
        lemma_plot_cell_at(mid, w, h, cells.last(), s, c, px, py, k);
        if exists|j: int| 0 <= j < cells.len() && cell_has_pixel(#[trigger] cells[j], s, px, py) {
            let j = choose|j: int| 0 <= j < cells.len() && cell_has_pixel(#[trigger] cells[j], s, px, py);
            if j < front.len() {
                assert(front[j] == cells[j]);
                assert(cell_has_pixel(front[j], s, px, py));
            }
        }
        if exists|j: int| 0 <= j < front.len() && cell_has_pixel(#[trigger] front[j], s, px, py) {
            let j = choose|j: int| 0 <= j < front.len() && cell_has_pixel(#[trigger] front[j], s, px, py);
            assert(cells[j] == front[j]);
        }
    }
}

/// What the layout PNG shows: pixel `(px, py)` belongs to grid cell
/// `(px / s, py / s)` for the scale `s` (at least one); it is black when
/// that cell is a text cell, otherwise grey when it is a fill cell, and
/// white otherwise.
pub proof fn lemma_layout_png_pixel(
    canvas_w: u32,
    canvas_h: u32,
    scale: u32,
    fill: Seq<(i32, i32)>,
    text: Seq<(i32, i32)>,
    px: int,
    py: int,
    k: int,
)
    requires
        0 <= px < canvas_w * effective_scale(scale),
        0 <= py < canvas_h * effective_scale(scale),
        0 <= k < 3,
    ensures
        ({
            let s = effective_scale(scale);
            let img = layout_png_spec(canvas_w, canvas_h, scale, fill, text);
            let w = canvas_w * s;
            &&& img.len() == w * (canvas_h * s) * 3
            &&& rgb_byte(img, w, px, py, k) == if exists|j: int|
                0 <= j < text.len() && cell_has_pixel(#[trigger] text[j], s, px, py) {
                0u8
            } else if exists|j: int|
                0 <= j < fill.len() && cell_has_pixel(#[trigger] fill[j], s, px, py) {
                160u8
            } else {
                255u8
            }
        }),
{
    let s = effective_scale(scale);
    let w = canvas_w * s;
    let h = canvas_h * s;
    assert(0 <= w * h * 3) by (nonlinear_arith)
        requires
            0 <= w,
            0 <= h,
    ;
    let white = Seq::new((w * h * 3) as nat, |i: int| 255u8);
    let grey = seq![160u8, 160u8, 160u8];
    let black = seq![0u8, 0u8, 0u8];
    lemma_plot_cells_at(white, w, h, fill, s, grey, px, py, k);
    let with_fill = plot_cells_rgb(white, w, h, fill, s, grey);
    lemma_plot_cells_at(with_fill, w, h, text, s, black, px, py, k);
    lemma_rgb_offsets(w, h, px, py, k, px, py, k);
}

/// The colour that the boundaries give pixel `(px, py)`: that of the last
/// boundary whose pixel box contains it, or none.
pub open spec fn boundary_color_at(
    bs: Seq<Boundary>,
    f: RenderFrame,
    grid: int,
    scale: u32,
    layers: LayerConfig,
    px: int,
    py: int,
) -> Option<Seq<u8>>
    decreases bs.len(),
{
    if bs.len() == 0 {
        None
    } else {
        let p = pixel_box(bs.last(), f, grid, scale);
        if p.0 <= px < p.1 && p.2 <= py < p.3 {
            Some(layer_color(bs.last(), layers))
        } else {
            boundary_color_at(bs.drop_last(), f, grid, scale, layers, px, py)
        }
    }
}

/// Every pixel box lies inside the image.
proof fn lemma_pixel_box_in_frame(b: Boundary, f: RenderFrame, grid: int, scale: u32)
    requires
        0 <= f.w_px <= u32::MAX,
        0 <= f.h_px,
    ensures
        ({
            let p = pixel_box(b, f, grid, scale);
            0 <= p.0 && p.1 <= f.w_px && 0 <= p.2 && p.3 <= f.h_px
        }),
{
    let c = cell_box(b, f, grid);
    assert(0 <= max_int(c.flipped_y0, 0) * scale) by (nonlinear_arith)
        requires
            0 <= max_int(c.flipped_y0, 0),
            0 <= scale,
    ;
    assert((f.w_px as i32) as int <= f.w_px);
}

proof fn lemma_draw_boundaries_at(
    buf: Seq<u8>,
    bs: Seq<Boundary>,
    f: RenderFrame,
    grid: int,
    scale: u32,
    layers: LayerConfig,
    px: int,
    py: int,
    k: int,
)
    requires
        0 <= f.w_px <= u32::MAX,
        0 <= f.h_px,
        buf.len() == f.w_px * f.h_px * 3,
        0 <= px < f.w_px,
        0 <= py < f.h_px,
        0 <= k < 3,
    ensures
        draw_boundaries_spec(buf, bs, f, grid, scale, layers).len() == buf.len(),
        rgb_byte(draw_boundaries_spec(buf, bs, f, grid, scale, layers), f.w_px, px, py, k) == match
            boundary_color_at(bs, f, grid, scale, layers, px, py) {
            Some(c) => c[k],
            None => rgb_byte(buf, f.w_px, px, py, k),
        },
    decreases bs.len(),
{
    if bs.len() > 0 {
        let b = bs.last();
        lemma_draw_boundaries_at(buf, bs.drop_last(), f, grid, scale, layers, px, py, k);
        let mid = draw_boundaries_spec(buf, bs.drop_last(), f, grid, scale, layers);
        let p = pixel_box(b, f, grid, scale);
        lemma_pixel_box_in_frame(b, f, grid, scale);
        lemma_fill_box_at(
            mid,
            f.w_px,
            f.h_px,
            p.0,
            p.1,
            p.2,
            p.3,
            layer_color(b, layers),
            px,
            py,
            k,
        );
    }
}

/// What the image of a GDS file read back shows: each pixel has the colour
/// of the last boundary (in file order) whose box contains it (black on the
/// text layer, grey on the fill layer, blue on any other), and is white
/// where no boundary's box contains it.
pub proof fn lemma_gds_png_pixel(
    bs: Seq<Boundary>,
    layers: LayerConfig,
    grid: int,
    scale: u32,
    padding: int,
    px: int,
    py: int,
    k: int,
)
    requires
        grid >= 1,
        render_fits(bs, grid, scale, padding),
        0 <= px < render_frame(bs, grid, scale as int, padding).w_px,
        0 <= py < render_frame(bs, grid, scale as int, padding).h_px,
        0 <= k < 3,
    ensures
        ({
            let f = render_frame(bs, grid, scale as int, padding);
            let img = gds_png_spec(bs, layers, grid, scale, padding);
            &&& img.len() == f.w_px * f.h_px * 3
            &&& rgb_byte(img, f.w_px, px, py, k) == match boundary_color_at(
                bs,
                f,
                grid,
                scale,
                layers,
                px,
                py,
            ) {
                Some(c) => c[k],
                None => 255u8,
            }
        }),
{
    let f = render_frame(bs, grid, scale as int, padding);
    assert(0 <= f.w_px * f.h_px * 3) by (nonlinear_arith)
        requires
            0 <= f.w_px,
            0 <= f.h_px,
    ;
    let white = Seq::new((f.w_px * f.h_px * 3) as nat, |i: int| 255u8);
    lemma_draw_boundaries_at(white, bs, f, grid, scale, layers, px, py, k);
    lemma_rgb_offsets(f.w_px, f.h_px, px, py, k, px, py, k);
}

/// Pixel `(px, py)` lies in the pixel box `p` of a boundary.
pub open spec fn in_pixel_box(p: (int, int, int, int), px: int, py: int) -> bool {
    p.0 <= px < p.1 && p.2 <= py < p.3
}

proof fn lemma_color_of_last_cover(
    bs: Seq<Boundary>,
    f: RenderFrame,
    grid: int,
    scale: u32,
    layers: LayerConfig,
    px: int,
    py: int,
    i: int,
)
    requires
        0 <= i < bs.len(),
        in_pixel_box(pixel_box(bs[i], f, grid, scale), px, py),
        forall|j: int|
            i < j < bs.len() ==> !in_pixel_box(#[trigger] pixel_box(bs[j], f, grid, scale), px, py),
    ensures
        boundary_color_at(bs, f, grid, scale, layers, px, py) == Some(layer_color(bs[i], layers)),
    decreases bs.len(),
{
    if i < bs.len() - 1 {
        let front = bs.drop_last();
        assert(bs.last() == bs[bs.len() - 1]);
        assert(!in_pixel_box(pixel_box(bs[bs.len() - 1], f, grid, scale), px, py));
        assert forall|j: int| i < j < front.len() implies !in_pixel_box(
            #[trigger] pixel_box(front[j], f, grid, scale),
            px,
            py,
        ) by {
            assert(front[j] == bs[j]);
            assert(!in_pixel_box(pixel_box(bs[j], f, grid, scale), px, py));
        }
        assert(front[i] == bs[i]);
        lemma_color_of_last_cover(front, f, grid, scale, layers, px, py, i);
    } else {
        assert(bs.last() == bs[i]);
    }
}

proof fn lemma_color_of_no_cover(
    bs: Seq<Boundary>,
    f: RenderFrame,
    grid: int,
    scale: u32,
    layers: LayerConfig,
    px: int,
    py: int,
)
    requires
        forall|j: int|
            0 <= j < bs.len() ==> !in_pixel_box(#[trigger] pixel_box(bs[j], f, grid, scale), px, py),
    ensures
        boundary_color_at(bs, f, grid, scale, layers, px, py) is None,
    decreases bs.len(),
{
    if bs.len() > 0 {
        let front = bs.drop_last();
        assert(bs.last() == bs[bs.len() - 1]);
        assert(!in_pixel_box(pixel_box(bs[bs.len() - 1], f, grid, scale), px, py));
        assert forall|j: int| 0 <= j < front.len() implies !in_pixel_box(
            #[trigger] pixel_box(front[j], f, grid, scale),
            px,
            py,
        ) by {
            assert(front[j] == bs[j]);
            assert(!in_pixel_box(pixel_box(bs[j], f, grid, scale), px, py));
        }
        lemma_color_of_no_cover(front, f, grid, scale, layers, px, py);
    }
}

/// The colours of the image of a GDS file read back, by layer: a pixel
/// whose last covering boundary (in file order) is on the text layer and
/// datatype is black `[0, 0, 0]`; one whose last covering boundary is on
/// the fill layer and datatype (and not on the text pair) is grey
/// `[160, 160, 160]`; one whose last covering boundary is on any other pair
/// is blue `[40, 100, 200]`; a pixel no boundary covers is white.
pub proof fn lemma_gds_png_layer_colors(
    bs: Seq<Boundary>,
    layers: LayerConfig,
    grid: int,
    scale: u32,
    padding: int,
    px: int,
    py: int,
    k: int,
)
    requires
        grid >= 1,
        render_fits(bs, grid, scale, padding),
        0 <= px < render_frame(bs, grid, scale as int, padding).w_px,
        0 <= py < render_frame(bs, grid, scale as int, padding).h_px,
        0 <= k < 3,
    ensures
        ({
            let f = render_frame(bs, grid, scale as int, padding);
            let byte = rgb_byte(gds_png_spec(bs, layers, grid, scale, padding), f.w_px, px, py, k);
            &&& forall|i: int|
                0 <= i < bs.len() && in_pixel_box(pixel_box(#[trigger] bs[i], f, grid, scale), px, py)
                    && (forall|j: int|
                    i < j < bs.len() ==> !in_pixel_box(
                        #[trigger] pixel_box(bs[j], f, grid, scale),
                        px,
                        py,
                    )) ==> {
                    let on_text = bs[i].layer == layers.text_layer && bs[i].datatype
                        == layers.text_datatype;
                    let on_fill = bs[i].layer == layers.fill_layer && bs[i].datatype
                        == layers.fill_datatype;
                    &&& on_text ==> byte == 0
                    &&& !on_text && on_fill ==> byte == 160
                    &&& !on_text && !on_fill ==> byte == (if k == 0 {
                        40u8
                    } else if k == 1 {
                        100u8
                    } else {
                        200u8
                    })
                }
            &&& (forall|j: int|
                0 <= j < bs.len() ==> !in_pixel_box(
                    #[trigger] pixel_box(bs[j], f, grid, scale),
                    px,
                    py,
                )) ==> byte == 255
        }),
{
    let f = render_frame(bs, grid, scale as int, padding);
    lemma_gds_png_pixel(bs, layers, grid, scale, padding, px, py, k);
    assert forall|i: int|
        0 <= i < bs.len() && in_pixel_box(pixel_box(#[trigger] bs[i], f, grid, scale), px, py)
            && (forall|j: int|
            i < j < bs.len() ==> !in_pixel_box(
                #[trigger] pixel_box(bs[j], f, grid, scale),
                px,
                py,
            )) implies {
        let byte = rgb_byte(gds_png_spec(bs, layers, grid, scale, padding), f.w_px, px, py, k);
        let on_text = bs[i].layer == layers.text_layer && bs[i].datatype == layers.text_datatype;
        let on_fill = bs[i].layer == layers.fill_layer && bs[i].datatype == layers.fill_datatype;
        &&& on_text ==> byte == 0
        &&& !on_text && on_fill ==> byte == 160
        &&& !on_text && !on_fill ==> byte == (if k == 0 {
            40u8
        } else if k == 1 {
            100u8
        } else {
            200u8
        })
    } by {
        lemma_color_of_last_cover(bs, f, grid, scale, layers, px, py, i);
    }
    if forall|j: int|
        0 <= j < bs.len() ==> !in_pixel_box(#[trigger] pixel_box(bs[j], f, grid, scale), px, py) {
        lemma_color_of_no_cover(bs, f, grid, scale, layers, px, py);
    }
}

} // verus!
