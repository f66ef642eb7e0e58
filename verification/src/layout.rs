//! Hierarchical "one GDS cell per snippet" layout mode.
//!
//! In this mode each entry becomes its own cell sized to the snippet's tight
//! bounding box. The top cell contains a reference to each entry cell at its
//! layout position.
use vstd::prelude::*;
use crate::bitmap::{Bitmap, runs};
use crate::config::LayerConfig;
use crate::gds_out::{
    Cell, CellRef, CellView, Element, ElementView, Library, LibraryView, bitmap_elements,
    element_views, fits_i32, push_text_boundaries, text_fits_at, text_fits_holds, covers_cell,
    lemma_bitmap_elements_cover, boundary_on,
};

verus! {

/// The character of decimal digit `d`.
pub open spec fn digit_char(d: int) -> char {
    (48 + d) as char
}

/// Decimal representation of `n`, most significant digit first.
pub open spec fn decimal(n: nat) -> Seq<char>
    decreases n,
{
    if n < 10 {
        seq![digit_char(n as int)]
    } else {
        decimal(n / 10).push(digit_char((n % 10) as int))
    }
}

/// `n` in decimal, left-padded with zeros to at least `width` digits.
pub open spec fn zero_padded(n: nat, width: nat) -> Seq<char> {
    let d = decimal(n);
    let pad = if d.len() < width {
        (width - d.len()) as nat
    } else {
        0nat
    };
    Seq::new(pad, |i: int| '0') + d
}

/// Name of the GDS cell of layout entry `id`: `C` and the id in decimal,
/// zero-padded to seven digits.
pub open spec fn entry_cell_name(id: u64) -> Seq<char> {
    seq!['C'] + zero_padded(id as nat, 7)
}

/// The digits `ds` (least significant first) written most significant
/// first.
pub open spec fn digits_text(ds: Seq<u8>) -> Seq<char>
    decreases ds.len(),
{
    if ds.len() == 0 {
        Seq::empty()
    } else {
        seq![digit_char(ds.last() as int)] + digits_text(ds.drop_last())
    }
}

proof fn lemma_digits_text_index(ds: Seq<u8>, k: int)
    requires
        0 <= k < ds.len(),
    ensures
        digits_text(ds).len() == ds.len(),
        digits_text(ds)[k] == digit_char(ds[ds.len() - 1 - k] as int),
    decreases ds.len(),
{
    lemma_digits_text_len(ds);
    if k > 0 {
        lemma_digits_text_index(ds.drop_last(), k - 1);
    }
}

proof fn lemma_digits_text_len(ds: Seq<u8>)
    ensures
        digits_text(ds).len() == ds.len(),
    decreases ds.len(),
{
    if ds.len() > 0 {
        lemma_digits_text_len(ds.drop_last());
    }
}

/// The one-character string of decimal digit `d`.
fn digit_str(d: u8) -> (s: &'static str)
    requires
        d < 10,
    ensures
        s@ == seq![digit_char(d as int)],
{
    proof {
        reveal_strlit("0");
        reveal_strlit("1");
        reveal_strlit("2");
        reveal_strlit("3");
        reveal_strlit("4");
        reveal_strlit("5");
        reveal_strlit("6");
        reveal_strlit("7");
        reveal_strlit("8");
        reveal_strlit("9");
    }
    let s = match d {
        0 => "0",
        1 => "1",
        2 => "2",
        3 => "3",
        4 => "4",
        5 => "5",
        6 => "6",
        7 => "7",
        8 => "8",
        _ => "9",
    };
    assert(s@ =~= seq![digit_char(d as int)]);
    s
}

/// The GDS cell name of layout entry `id`, `C` followed by the id
/// zero-padded to seven digits (e.g. `C0000042`).
pub fn cell_name(id: u64) -> (s: String)
    ensures
        s@ == entry_cell_name(id),
{
    let mut digits: Vec<u8> = Vec::new();
    let mut m = id;
    digits.push((m % 10) as u8);
    m = m / 10;
    proof {
        reveal_with_fuel(digits_text, 2);
        assert(digits_text(digits@) =~= seq![digit_char((id % 10) as int)]);
    }
    assert(decimal(id as nat) =~= (if m > 0 {
        decimal(m as nat)
    } else {
        Seq::empty()
    }) + digits_text(digits@));
    while m > 0
        invariant
            decimal(id as nat) == (if m > 0 {
                decimal(m as nat)
            } else {
                Seq::empty()
            }) + digits_text(digits@),
            forall|k: int| 0 <= k < digits@.len() ==> #[trigger] digits@[k] < 10,
        decreases m,
    {
        let ghost old_digits = digits@;
        let ghost old_m = m;
        digits.push((m % 10) as u8);
        m = m / 10;
        assert(digits_text(digits@) =~= seq![digit_char((old_m % 10) as int)] + digits_text(
            old_digits,
        )) by {
            assert(digits@.drop_last() =~= old_digits);
        }
        assert(decimal(id as nat) =~= (if m > 0 {
            decimal(m as nat)
        } else {
            Seq::empty()
        }) + digits_text(digits@));
    }
    let n = digits.len();
    proof {
        lemma_digits_text_len(digits@);
        reveal_strlit("C");
        reveal_strlit("0");
    }
    let mut s = String::from_str("C");
    let pad: usize = if n < 7 {
        7 - n
    } else {
        0
    };
    let mut p: usize = 0;
    while p < pad
        invariant
            p <= pad,
            s@ == seq!['C'] + Seq::new(p as nat, |i: int| '0'),
        decreases pad - p,
    {
        proof {
            reveal_strlit("0");
        }
        s.append("0");
        assert(s@ =~= seq!['C'] + Seq::new((p + 1) as nat, |i: int| '0'));
        p = p + 1;
    }
    let ghost prefix = s@;
    let mut i: usize = n;
    while i > 0
        invariant
            i <= n,
            n == digits@.len(),
            forall|k: int| 0 <= k < digits@.len() ==> #[trigger] digits@[k] < 10,
            digits_text(digits@).len() == n,
            s@ == prefix + digits_text(digits@).take(n - i),
        decreases i,
    {
        let d = digits[i - 1];
        assert(digits@[i - 1] < 10);
        let ds = digit_str(d);
        s.append(ds);
        proof {
            lemma_digits_text_index(digits@, n - i);
        }
        assert(digits_text(digits@).take(n - i + 1) =~= digits_text(digits@).take(n - i).push(
            digit_char(d as int),
        ));
        assert(s@ =~= prefix + digits_text(digits@).take(n - i + 1));
        i = i - 1;
    }
    assert(digits_text(digits@).take(n as int) =~= digits_text(digits@));
    assert(s@ =~= entry_cell_name(id));
    s
}

/// One layout entry: a rendered (and rotated) snippet and the position of
/// its cell inside the top cell, in grid cells measured from the canvas
/// top-left.
pub struct LayoutCell {
    pub id: u64,
    pub bitmap: Bitmap,
    pub x: i32,
    pub y: i32,
}

/// The entry's geometry and its reference keep 32-bit coordinates.
pub open spec fn layout_cell_fits(e: LayoutCell, top_h: int, grid: int) -> bool {
    let h = e.bitmap@.height as int;
    &&& h <= i32::MAX
    &&& text_fits_at(e.bitmap, 0, 0, h, grid)
    &&& fits_i32(e.x * grid)
    &&& fits_i32(top_h - e.y)
    &&& fits_i32(top_h - e.y - h)
    &&& fits_i32((top_h - e.y - h) * grid)
}

/// Whether the entry's geometry and its reference keep 32-bit coordinates
/// (the condition `layout_cell_fits` of `build_layout_library`).
pub fn layout_cell_fits_holds(e: &LayoutCell, canvas_height_px: u32, grid_nm: u32) -> (r: bool)
    requires
        e.bitmap.valid(),
        grid_nm <= i32::MAX,
    ensures
        r == layout_cell_fits(*e, canvas_height_px as int, grid_nm as int),
{
    let h = e.bitmap.height();
    if h > 2147483647u32 {
        return false;
    }
    if !text_fits_holds(&e.bitmap, 0, 0, h as i32, grid_nm as i32) {
        return false;
    }
    let g = grid_nm as i128;
    let x = e.x as i128;
    let top = canvas_height_px as i128;
    let rise = top - e.y as i128;
    let bottom = rise - h as i128;
    proof {
        assert(-0x8000_0000 * 0x8000_0000 <= x * g <= 0x8000_0000 * 0x8000_0000) by (nonlinear_arith)
            requires
                -0x8000_0000 <= x <= 0x8000_0000,
                0 <= g <= 0x8000_0000,
        ;
        assert(-0x2_0000_0000 * 0x8000_0000 <= bottom * g <= 0x2_0000_0000 * 0x8000_0000)
            by (nonlinear_arith)
            requires
                -0x2_0000_0000 <= bottom <= 0x2_0000_0000,
                0 <= g <= 0x8000_0000,
        ;
    }
    let fits = |v: i128| -> (b: bool)
        ensures
            b == fits_i32(v as int),
        { -2147483648i128 <= v && v <= 2147483647i128 };
    fits(x * g) && fits(rise) && fits(bottom) && fits(bottom * g)
}

/// The entry's own cell: its text runs in local coordinates, Y flipped
/// inside the cell so the text reads upright once placed.
pub open spec fn entry_cell_view(e: LayoutCell, grid: int, layers: LayerConfig) -> CellView {
    CellView {
        name: entry_cell_name(e.id),
        elems: bitmap_elements(e.bitmap@, 0, 0, e.bitmap@.height as int, grid, layers),
    }
}

/// The reference to the entry's cell in the top cell: `x` scaled to nm, and
/// the entry's top edge converted to the GDS Y (bottom-left origin) of its
/// bottom edge, `(top_h - y - height) * grid`, negative for an entry that
/// reaches below the bottom of the top cell.
pub open spec fn entry_ref_view(e: LayoutCell, top_h: int, grid: int) -> ElementView {
    ElementView::CellRef {
        name: entry_cell_name(e.id),
        x: (e.x * grid) as i32,
        y: ((top_h - e.y - e.bitmap@.height) * grid) as i32,
    }
}

/// The hierarchical library: one cell per entry, in order, then the top
/// cell `TOP` referencing each entry cell.
pub open spec fn layout_view(
    es: Seq<LayoutCell>,
    top_h: int,
    grid: int,
    layers: LayerConfig,
) -> LibraryView {
    LibraryView {
        name: "GDS_TEXT"@,
        cells: es.map_values(|e: LayoutCell| entry_cell_view(e, grid, layers)).push(
            CellView {
                name: "TOP"@,
                elems: es.map_values(|e: LayoutCell| entry_ref_view(e, top_h, grid)),
            },
        ),
    }
}

/// Build the hierarchical GDS library with one cell per entry, the top cell
/// `canvas_height_px` grid cells high.
pub fn build_layout_library(
    entries: &[LayoutCell],
    grid_nm: u32,
    canvas_height_px: u32,
    layers: LayerConfig,
) -> (lib: Library)
    requires
        0 < grid_nm <= i32::MAX,
        canvas_height_px <= i32::MAX,
        forall|k: int|
            0 <= k < entries@.len() ==> layout_cell_fits(
                #[trigger] entries@[k],
                canvas_height_px as int,
                grid_nm as int,
            ),
    ensures
        lib@ == layout_view(entries@, canvas_height_px as int, grid_nm as int, layers),
{
    let grid = grid_nm as i32;
    let top_h = canvas_height_px as i32;
    let ghost cv = |e: LayoutCell| entry_cell_view(e, grid as int, layers);
    let ghost rv = |e: LayoutCell| entry_ref_view(e, top_h as int, grid as int);
    let mut cells: Vec<Cell> = Vec::new();
    let mut top_elems: Vec<Element> = Vec::new();
    let n = entries.len();
    let mut k: usize = 0;
    while k < n
        invariant
            n == entries@.len(),
            k <= n,
            0 < grid,
            grid == grid_nm,
            top_h == canvas_height_px,
            forall|k: int|
                0 <= k < entries@.len() ==> layout_cell_fits(
                    #[trigger] entries@[k],
                    canvas_height_px as int,
                    grid_nm as int,
                ),
            cv == (|e: LayoutCell| entry_cell_view(e, grid as int, layers)),
            rv == (|e: LayoutCell| entry_ref_view(e, top_h as int, grid as int)),
            cells@.map_values(|c: Cell| c@) == entries@.take(k as int).map_values(cv),
            element_views(top_elems@) == entries@.take(k as int).map_values(rv),
        decreases n - k,
    {
        let e = &entries[k];
        assert(layout_cell_fits(*e, top_h as int, grid as int));
        let h = e.bitmap.height() as i32;
        let name = cell_name(e.id);
        let mut elems: Vec<Element> = Vec::new();
        push_text_boundaries(&e.bitmap, 0, 0, h, grid, layers, &mut elems);
        assert(element_views(elems@) =~= bitmap_elements(
            e.bitmap@,
            0,
            0,
            h as int,
            grid as int,
            layers,
        ));
        let cell = Cell { name: name.clone(), elems };
        let ghost cells_before = cells@;
        cells.push(cell);
        let ref_x = e.x * grid;
        let ref_y = (top_h - e.y - h) * grid;
        let ghost tops_before = top_elems@;
        top_elems.push(Element::CellRef(CellRef { name, x: ref_x, y: ref_y }));
        assert(entries@.take(k + 1) =~= entries@.take(k as int).push(entries@[k as int]));
        assert(cells@.map_values(|c: Cell| c@) =~= cells_before.map_values(|c: Cell| c@).push(
            cv(*e),
        ));
        assert(element_views(top_elems@) =~= element_views(tops_before).push(rv(*e)));
        k = k + 1;
    }
    assert(entries@.take(n as int) =~= entries@);
    proof {
        reveal_strlit("TOP");
    }
    let top = Cell { name: String::from_str("TOP"), elems: top_elems };
    let ghost cells_before = cells@;
    cells.push(top);
    let lib = Library { name: String::from_str("GDS_TEXT"), cells };
    assert(lib@.cells =~= cells_before.map_values(|c: Cell| c@).push(top@));
    assert(lib@.cells =~= layout_view(
        entries@,
        canvas_height_px as int,
        grid_nm as int,
        layers,
    ).cells);
    lib
}

/// Each entry's own cell holds its rendered text: a grid cell `(cx, cy)` of
/// the entry cell (Y up) lies in one of its boundaries exactly when the
/// entry's bitmap has a lit pixel at `(cx, height - 1 - cy)`.
pub proof fn lemma_entry_cell_is_lit_pixels(
    es: Seq<LayoutCell>,
    top_h: int,
    grid: int,
    layers: LayerConfig,
    k: int,
    cx: int,
    cy: int,
)
    requires
        0 < grid <= i32::MAX,
        0 <= k < es.len(),
        layout_cell_fits(es[k], top_h, grid),
    ensures
        ({
            let elems = layout_view(es, top_h, grid, layers).cells[k].elems;
            (exists|i: int| 0 <= i < elems.len() && covers_cell(#[trigger] elems[i], grid, cx, cy))
                <==> es[k].bitmap@.on.contains((cx, es[k].bitmap@.height - 1 - cy))
        }),
{
    let e = es[k];
    let h = e.bitmap@.height as int;
    assert(layout_view(es, top_h, grid, layers).cells[k] == entry_cell_view(e, grid, layers));
    lemma_bitmap_elements_cover(e.bitmap, 0, 0, h, grid, layers, cx, cy);
    assert((cx - 0, h - 1 - cy - 0) == (cx, h - 1 - cy));
    let elems = layout_view(es, top_h, grid, layers).cells[k].elems;
    let be = bitmap_elements(e.bitmap@, 0, 0, h, grid, layers);
    assert(elems == be);
    if exists|i: int| 0 <= i < elems.len() && covers_cell(#[trigger] elems[i], grid, cx, cy) {
        let i = choose|i: int| 0 <= i < elems.len() && covers_cell(#[trigger] elems[i], grid, cx, cy);
        assert(covers_cell(be[i], grid, cx, cy));
    }
    if exists|i: int| 0 <= i < be.len() && covers_cell(#[trigger] be[i], grid, cx, cy) {
        let i = choose|i: int| 0 <= i < be.len() && covers_cell(#[trigger] be[i], grid, cx, cy);
        assert(covers_cell(elems[i], grid, cx, cy));
    }
}

/// The layout library has one cell per entry and then the top cell. Each
/// entry cell holds one boundary per run of the entry's bitmap, every one
/// on the text layer and datatype; the top cell holds one cell reference
/// per entry.
pub proof fn lemma_layout_layers(es: Seq<LayoutCell>, top_h: int, grid: int, layers: LayerConfig)
    ensures
        ({
            let cells = layout_view(es, top_h, grid, layers).cells;
            &&& cells.len() == es.len() + 1
            &&& forall|k: int|
                0 <= k < es.len() ==> (#[trigger] cells[k]).elems.len() == runs(es[k].bitmap@).len()
            &&& forall|k: int, i: int|
                0 <= k < es.len() && 0 <= i < cells[k].elems.len() ==> boundary_on(
                    #[trigger] cells[k].elems[i],
                    layers.text_layer,
                    layers.text_datatype,
                )
            &&& cells[es.len() as int].elems.len() == es.len()
            &&& forall|i: int|
                0 <= i < es.len() ==> (#[trigger] cells[es.len() as int].elems[i]) is CellRef
        }),
{
    let cells = layout_view(es, top_h, grid, layers).cells;
    assert forall|k: int| 0 <= k < es.len() implies (#[trigger] cells[k]).elems.len() == runs(
        es[k].bitmap@,
    ).len() by {
        assert(cells[k] == entry_cell_view(es[k], grid, layers));
    }
    assert forall|k: int, i: int| 0 <= k < es.len() && 0 <= i < cells[k].elems.len() implies boundary_on(
        #[trigger] cells[k].elems[i],
        layers.text_layer,
        layers.text_datatype,
    ) by {
        assert(cells[k] == entry_cell_view(es[k], grid, layers));
    }
}

/// The top cell places each entry where it stands on the canvas: its
/// `k`-th element references the `k`-th entry's cell, and with that
/// reference the entry cell's grid cell for bitmap pixel `(px, py)` (local
/// cell `(px, height - 1 - py)`, Y up) lands on canvas cell
/// `(x + px, y + py)` with the canvas Y flipped: at
/// `((x + px) * grid, (top_h - 1 - (y + py)) * grid)` nanometres.
pub proof fn lemma_layout_refs_place_pixels(
    es: Seq<LayoutCell>,
    top_h: int,
    grid: int,
    layers: LayerConfig,
    k: int,
    px: int,
    py: int,
)
    requires
        0 <= k < es.len(),
        layout_cell_fits(es[k], top_h, grid),
    ensures
        ({
            let cells = layout_view(es, top_h, grid, layers).cells;
            let e = es[k];
            let h = e.bitmap@.height as int;
            cells[es.len() as int].elems[k] matches ElementView::CellRef { name, x, y } && name
                == cells[k].name && x + px * grid == (e.x + px) * grid && y + (h - 1 - py) * grid
                == (top_h - 1 - (e.y + py)) * grid
        }),
{
    let cells = layout_view(es, top_h, grid, layers).cells;
    let e = es[k];
    let h = e.bitmap@.height as int;
    assert(cells[k] == entry_cell_view(e, grid, layers));
    assert(cells[es.len() as int].elems[k] == entry_ref_view(e, top_h, grid));
    assert(e.x * grid + px * grid == (e.x + px) * grid) by (nonlinear_arith);
    assert((top_h - e.y - h) * grid + (h - 1 - py) * grid == (top_h - 1 - (e.y + py)) * grid)
        by (nonlinear_arith);
}

} // verus!
