//! Calibre-style dummy fill respecting sky130-inspired design rules.
//!
//! The fill cells are chosen in three steps:
//! 1. candidates: the points of a regular grid over the canvas, with step
//!    `spacing + 1` cells, that lie farther than the fill-to-metal spacing
//!    from every used cell;
//! 2. a deterministic Fisher-Yates shuffle with a fixed seed;
//! 3. the first `target` shuffled candidates, sorted.
//!
//! Each fill shape is one grid cell square, so a grid finer than the
//! minimum width rule gets no fill at all.
use vstd::prelude::*;
use std::collections::HashSet;
use crate::config::DesignRules;
use crate::bitmap::{lemma_cell_index_bounds, lemma_cell_index_injective};

verus! {

broadcast use {vstd::seq_lib::group_to_multiset_ensures, vstd::std_specs::hash::group_hash_axioms};

/// The parts of a project that decide where dummy fill may go.
#[derive(Debug, Clone, Copy, PartialEq, Eq)]
pub struct FillConfig {
    /// Grid precision in nanometres (one cell is `grid_nm` square).
    pub grid_nm: u32,
    pub rules: DesignRules,
    /// Canvas size in grid cells.
    pub canvas_width_px: u32,
    pub canvas_height_px: u32,
}

/// The configuration values fit the signed 32-bit arithmetic of the fill
/// computation, and the grid is not empty.
pub open spec fn fill_config_ok(c: FillConfig) -> bool {
    &&& 0 < c.grid_nm <= i32::MAX
    &&& c.rules.fill_to_metal_spacing_nm <= i32::MAX
    &&& c.rules.min_spacing_nm <= i32::MAX
    &&& c.canvas_width_px <= i32::MAX
    &&& c.canvas_height_px <= i32::MAX
}

/// Whether the configuration meets `fill_config_ok`.
pub fn fill_config_holds(c: &FillConfig) -> (r: bool)
    ensures
        r == fill_config_ok(*c),
{
    0 < c.grid_nm && c.grid_nm <= 2147483647u32 && c.rules.fill_to_metal_spacing_nm
        <= 2147483647u32 && c.rules.min_spacing_nm <= 2147483647u32 && c.canvas_width_px
        <= 2147483647u32 && c.canvas_height_px <= 2147483647u32
}

/// `a / b` rounded up, for `a >= 0` and `b > 0`.
pub open spec fn ceil_div(a: int, b: int) -> int {
    (a + b - 1) / b
}

/// Cells around a used cell in which no fill may go (on each side).
pub open spec fn exclusion_radius(c: FillConfig) -> int {
    ceil_div(c.rules.fill_to_metal_spacing_nm as int, c.grid_nm as int)
}

/// Minimum spacing between fill cells, in cells, at least one.
pub open spec fn spacing_cells(c: FillConfig) -> int {
    let s = ceil_div(c.rules.min_spacing_nm as int, c.grid_nm as int);
    if s < 1 {
        1
    } else {
        s
    }
}

/// Distance between neighbouring candidate fill cells, in cells.
pub open spec fn fill_pitch(c: FillConfig) -> int {
    spacing_cells(c) + 1
}

/// Cell `(x, y)` lies within `e` cells (in both directions) of a used cell.
pub open spec fn near_used(used: Seq<(i32, i32)>, e: int, x: int, y: int) -> bool {
    exists|i: int|
        0 <= i < used.len() && -e <= x - (#[trigger] used[i]).0 <= e && -e <= y - used[i].1 <= e
}

/// The candidates of row `y` from column `x` rightwards, one every pitch.
pub open spec fn row_candidates(c: FillConfig, used: Seq<(i32, i32)>, y: int, x: int) -> Seq<
    (i32, i32),
>
    decreases c.canvas_width_px + fill_pitch(c) - x,
{
    if x >= c.canvas_width_px || fill_pitch(c) <= 0 {
        Seq::empty()
    } else {
        let here: Seq<(i32, i32)> = if near_used(used, exclusion_radius(c), x, y) {
            Seq::empty()
        } else {
            seq![(x as i32, y as i32)]
        };
        here + row_candidates(c, used, y, x + fill_pitch(c))
    }
}

/// The candidates of the rows from `y` downwards, one row every pitch.
pub open spec fn grid_candidates(c: FillConfig, used: Seq<(i32, i32)>, y: int) -> Seq<(i32, i32)>
    decreases c.canvas_height_px + fill_pitch(c) - y,
{
    if y >= c.canvas_height_px || fill_pitch(c) <= 0 {
        Seq::empty()
    } else {
        row_candidates(c, used, y, 0) + grid_candidates(c, used, y + fill_pitch(c))
    }
}

/// A fill shape, one grid cell square, is at least as wide as the minimum
/// width rule asks.
pub open spec fn fill_wide_enough(c: FillConfig) -> bool {
    c.rules.min_width_nm <= c.grid_nm
}

/// All candidate fill cells, in row-major order; none when a grid cell is
/// narrower than the minimum width.
pub open spec fn fill_candidates(c: FillConfig, used: Seq<(i32, i32)>) -> Seq<(i32, i32)> {
    if fill_wide_enough(c) {
        grid_candidates(c, used, 0)
    } else {
        Seq::empty()
    }
}

/// Seed of the fill shuffle.
pub const SHUFFLE_SEED: u64 = 0x9E37_79B9_7F4A_7C15;

/// One step of the shuffle's linear congruential generator.
pub open spec fn lcg_next(state: u64) -> u64 {
    state.wrapping_mul(6364136223846793005).wrapping_add(1442695040888963407)
}

/// `s` with the elements at `i` and `j` exchanged.
pub open spec fn swapped<A>(s: Seq<A>, i: int, j: int) -> Seq<A> {
    s.update(i, s[j]).update(j, s[i])
}

/// Fisher-Yates steps for positions `i` down to 1, starting from generator
/// state `state`.
pub open spec fn shuffle_from<A>(s: Seq<A>, i: nat, state: u64) -> Seq<A>
    decreases i,
{
    if i == 0 {
        s
    } else {
        let next = lcg_next(state);
        let j = ((next >> 33u64) as int) % (i + 1) as int;
        shuffle_from(swapped(s, i as int, j), (i - 1) as nat, next)
    }
}

/// The deterministic shuffle used to spread fill cells.
pub open spec fn shuffled<A>(s: Seq<A>) -> Seq<A> {
    if s.len() == 0 {
        s
    } else {
        shuffle_from(s, (s.len() - 1) as nat, SHUFFLE_SEED)
    }
}

/// The fill cells before sorting: the first `target` shuffled candidates.
pub open spec fn chosen_fill(c: FillConfig, used: Seq<(i32, i32)>, target: int) -> Seq<(i32, i32)> {
    let s = shuffled(fill_candidates(c, used));
    if target < s.len() {
        s.take(target)
    } else {
        s
    }
}

/// Lexicographic order on cells, as std orders pairs.
pub open spec fn cell_le(a: (i32, i32), b: (i32, i32)) -> bool {
    a.0 < b.0 || (a.0 == b.0 && a.1 <= b.1)
}

pub open spec fn cells_sorted(s: Seq<(i32, i32)>) -> bool {
    forall|i: int, j: int| 0 <= i < j < s.len() ==> cell_le(#[trigger] s[i], #[trigger] s[j])
}

/// `cell_le` as a relation value.
pub open spec fn cell_order() -> spec_fn((i32, i32), (i32, i32)) -> bool {
    |a: (i32, i32), b: (i32, i32)| cell_le(a, b)
}

/// The dummy fill cells: the chosen candidates in ascending order.
pub open spec fn fill_cells(c: FillConfig, used: Seq<(i32, i32)>, target: int) -> Seq<(i32, i32)> {
    chosen_fill(c, used, target).sort_by(cell_order())
}

pub proof fn lemma_cell_order_total()
    ensures
        vstd::relations::total_ordering(cell_order()),
{
}

/// A sorted permutation of the chosen cells is the fill.
proof fn lemma_sorted_is_fill(c: FillConfig, used: Seq<(i32, i32)>, target: int, r: Seq<(i32, i32)>)
    requires
        cells_sorted(r),
        r.to_multiset() == chosen_fill(c, used, target).to_multiset(),
    ensures
        r == fill_cells(c, used, target),
{
    let ch = chosen_fill(c, used, target);
    lemma_cell_order_total();
    ch.lemma_sort_by_ensures(cell_order());
    assert(vstd::relations::sorted_by(r, cell_order()));
    vstd::seq_lib::lemma_sorted_unique(r, ch.sort_by(cell_order()), cell_order());
}

/// Cell `(x, y)` lies within `e` cells, in both directions, of cell `u`.
pub open spec fn near_cell(u: (i32, i32), e: int, x: int, y: int) -> bool {
    -e <= x - u.0 <= e && -e <= y - u.1 <= e
}

proof fn lemma_near_used_push(used: Seq<(i32, i32)>, i: int, e: int, x: int, y: int)
    requires
        0 <= i < used.len(),
    ensures
        near_used(used.take(i + 1), e, x, y) == (near_used(used.take(i), e, x, y) || near_cell(
            used[i],
            e,
            x,
            y,
        )),
{
    let a = used.take(i);
    let b = used.take(i + 1);
    if near_used(b, e, x, y) {
        let k = choose|k: int|
            0 <= k < b.len() && -e <= x - (#[trigger] b[k]).0 <= e && -e <= y - b[k].1 <= e;
        if k < i {
            assert(a[k] == b[k]);
        }
    }
    if near_used(a, e, x, y) {
        let k = choose|k: int|
            0 <= k < a.len() && -e <= x - (#[trigger] a[k]).0 <= e && -e <= y - a[k].1 <= e;
        assert(b[k] == a[k]);
    }
    if near_cell(used[i], e, x, y) {
        assert(b[i] == used[i]);
    }
}

/// The exclusion set: the row-major positions `y * w + x` of the cells of
/// the `w` x `h` canvas that lie within `e` cells of a used cell.
fn exclusion_set(used: &[(i32, i32)], e: i64, w: i64, h: i64) -> (g: HashSet<u64>)
    requires
        0 <= e <= i32::MAX,
        0 <= w <= i32::MAX,
        0 <= h <= i32::MAX,
    ensures
        forall|x: int, y: int|
            0 <= x < w && 0 <= y < h ==> #[trigger] g@.contains((y * w + x) as u64) == near_used(used@, e as int, x, y),
{
    let mut g: HashSet<u64> = HashSet::new();
    proof {
        assert(0 <= w * h <= 0x8000_0000 * 0x8000_0000) by (nonlinear_arith)
            requires
                0 <= w <= i32::MAX,
                0 <= h <= i32::MAX,
        ;
    }
    let ghost cells = used@;
    assert forall|x: int, y: int| 0 <= x < w && 0 <= y < h implies #[trigger] g@.contains((y * w + x) as u64)
        == near_used(cells.take(0), e as int, x, y) by {
        lemma_cell_index_bounds(w as int, h as int, x, y);
    }
    let mut i: usize = 0;
    while i < used.len()
        invariant
            cells == used@,
            w * h <= 0x4000_0000_0000_0000,
            0 <= e <= i32::MAX,
            0 <= w <= i32::MAX,
            0 <= h <= i32::MAX,
            i <= used@.len(),
            forall|x: int, y: int|
                0 <= x < w && 0 <= y < h ==> #[trigger] g@.contains((y * w + x) as u64) == near_used(
                    cells.take(i as int),
                    e as int,
                    x,
                    y,
                ),
        decreases used@.len() - i,
    {
        let (ux, uy) = used[i];
        let u = (ux, uy);
        let x_lo = if ux as i64 - e > 0 {
            ux as i64 - e
        } else {
            0
        };
        let x_hi = if ux as i64 + e < w - 1 {
            ux as i64 + e
        } else {
            w - 1
        };
        let y_lo = if uy as i64 - e > 0 {
            uy as i64 - e
        } else {
            0
        };
        let y_hi = if uy as i64 + e < h - 1 {
            uy as i64 + e
        } else {
            h - 1
        };
        if y_lo <= y_hi && x_lo <= x_hi {
        let mut y = y_lo;
        while y <= y_hi
            invariant
                cells == used@,
                w * h <= 0x4000_0000_0000_0000,
                x_lo <= x_hi,
                0 <= e <= i32::MAX,
                0 <= w <= i32::MAX,
                0 <= h <= i32::MAX,
                i < used@.len(),
                u == cells[i as int],
                x_lo == (if u.0 - e > 0 { u.0 - e } else { 0 }),
                x_hi == (if u.0 + e < w - 1 { u.0 + e } else { w - 1 }),
                y_lo == (if u.1 - e > 0 { u.1 - e } else { 0 }),
                y_hi == (if u.1 + e < h - 1 { u.1 + e } else { h - 1 }),
                y_lo <= y <= y_hi + 1,
                    forall|x: int, yy: int|
                    0 <= x < w && 0 <= yy < h ==> #[trigger] g@.contains((yy * w + x) as u64) == (near_used(
                        cells.take(i as int),
                        e as int,
                        x,
                        yy,
                    ) || (near_cell(u, e as int, x, yy) && yy < y)),
            decreases y_hi + 1 - y,
        {
            let mut x = x_lo;
            while x <= x_hi
                invariant
                    cells == used@,
                    w * h <= 0x4000_0000_0000_0000,
                    0 <= e <= i32::MAX,
                    0 <= w <= i32::MAX,
                    0 <= h <= i32::MAX,
                    i < used@.len(),
                    u == cells[i as int],
                    x_lo == (if u.0 - e > 0 { u.0 - e } else { 0 }),
                    x_hi == (if u.0 + e < w - 1 { u.0 + e } else { w - 1 }),
                    y_lo == (if u.1 - e > 0 { u.1 - e } else { 0 }),
                    y_hi == (if u.1 + e < h - 1 { u.1 + e } else { h - 1 }),
                    y_lo <= y <= y_hi,
                    x_lo <= x <= x_hi + 1,
                            forall|xx: int, yy: int|
                        0 <= xx < w && 0 <= yy < h ==> #[trigger] g@.contains((yy * w + xx) as u64) == (near_used(
                            cells.take(i as int),
                            e as int,
                            xx,
                            yy,
                        ) || (near_cell(u, e as int, xx, yy) && (yy < y || (yy == y && xx < x)))),
                decreases x_hi + 1 - x,
            {
                proof {
                    lemma_cell_index_bounds(w as int, h as int, x as int, y as int);
                    assert(y * w <= y * w + x);
                }
                let k = (y as u64) * (w as u64) + (x as u64);
                let ghost before = g@;
                g.insert(k);
                assert forall|xx: int, yy: int| 0 <= xx < w && 0 <= yy < h implies #[trigger] g@.contains((yy * w + xx) as u64) == (near_used(cells.take(i as int), e as int, xx, yy) || (near_cell(
                    u,
                    e as int,
                    xx,
                    yy,
                ) && (yy < y || (yy == y && xx < x + 1)))) by {
                    lemma_cell_index_bounds(w as int, h as int, xx, yy);
                    if yy * w + xx == k as int {
                        lemma_cell_index_injective(w as int, xx, yy, x as int, y as int);
                    }
                }
                x = x + 1;
            }
            assert forall|xx: int, yy: int| 0 <= xx < w && 0 <= yy < h implies #[trigger] g@.contains((yy * w + xx) as u64) == (near_used(cells.take(i as int), e as int, xx, yy) || (near_cell(
                u,
                e as int,
                xx,
                yy,
            ) && yy < y + 1)) by {}
            y = y + 1;
        }
        }
        assert forall|x: int, yy: int| 0 <= x < w && 0 <= yy < h implies #[trigger] g@.contains((yy * w + x) as u64)
            == near_used(cells.take(i + 1), e as int, x, yy) by {
            lemma_near_used_push(cells, i as int, e as int, x, yy);
        }
        i = i + 1;
    }
    assert(cells.take(cells.len() as int) =~= cells);
    g
}

/// Distance between neighbouring candidate fill cells, in cells.
pub fn fill_step(cfg: &FillConfig) -> (s: i64)
    requires
        fill_config_ok(*cfg),
    ensures
        s == fill_pitch(*cfg),
        2 <= s <= i32::MAX as int + 1,
{
    let g = cfg.grid_nm as i64;
    let s0 = (cfg.rules.min_spacing_nm as i64 + g - 1) / g;
    proof {
        assert(s0 <= i32::MAX) by (nonlinear_arith)
            requires
                s0 as int == (cfg.rules.min_spacing_nm as int + g as int - 1) / (g as int),
                1 <= g <= i32::MAX,
                cfg.rules.min_spacing_nm <= i32::MAX,
        ;
    }
    let s = if s0 < 1 {
        1
    } else {
        s0
    };
    s + 1
}

/// The candidate fill cells, in row-major order.
fn collect_candidates(cfg: &FillConfig, used: &[(i32, i32)]) -> (r: Vec<(i32, i32)>)
    requires
        fill_config_ok(*cfg),
    ensures
        r@ == fill_candidates(*cfg, used@),
{
    if cfg.grid_nm < cfg.rules.min_width_nm {
        return Vec::new();
    }
    let c = *cfg;
    let g = cfg.grid_nm as i64;
    let e = (cfg.rules.fill_to_metal_spacing_nm as i64 + g - 1) / g;
    proof {
        assert(0 <= e <= i32::MAX) by (nonlinear_arith)
            requires
                e as int == (cfg.rules.fill_to_metal_spacing_nm as int + g as int - 1) / (g as int),
                1 <= g <= i32::MAX,
                cfg.rules.fill_to_metal_spacing_nm <= i32::MAX,
        ;
    }
    let step = fill_step(cfg);
    let w = cfg.canvas_width_px as i64;
    let h = cfg.canvas_height_px as i64;
    proof {
        assert(0 <= w * h <= 0x8000_0000 * 0x8000_0000) by (nonlinear_arith)
            requires
                0 <= w <= i32::MAX,
                0 <= h <= i32::MAX,
        ;
    }
    let excluded = exclusion_set(used, e, w, h);
    let mut out: Vec<(i32, i32)> = Vec::new();
    let mut y: i64 = 0;
    while y < h
        invariant
            c == *cfg,
            fill_config_ok(c),
            e == exclusion_radius(c),
            0 <= e <= i32::MAX,
            step == fill_pitch(c),
            2 <= step <= i32::MAX as int + 1,
            w == c.canvas_width_px,
            h == c.canvas_height_px,
            0 <= y <= h + step,
            w * h <= 0x4000_0000_0000_0000 && forall|
                x: int,
                y: int,
            | 0 <= x < w && 0 <= y < h ==> #[trigger] excluded@.contains((y * w + x) as u64) == near_used(
                used@,
                e as int,
                x,
                y,
            ),
            out@ + grid_candidates(c, used@, y as int) == fill_candidates(c, used@),
        decreases h + step - y,
    {
        let ghost row_start = out@;
        let mut x: i64 = 0;
        while x < w
            invariant
                c == *cfg,
                fill_config_ok(c),
                e == exclusion_radius(c),
                0 <= e <= i32::MAX,
            0 <= e <= i32::MAX,
                step == fill_pitch(c),
                2 <= step <= i32::MAX as int + 1,
                w == c.canvas_width_px,
                h == c.canvas_height_px,
                0 <= y < h,
                0 <= x <= w + step,
                w * h <= 0x4000_0000_0000_0000 && forall|
                    x: int,
                    y: int,
                | 0 <= x < w && 0 <= y < h ==> #[trigger] excluded@.contains((y * w + x) as u64) == near_used(
                    used@,
                    e as int,
                    x,
                    y,
                ),
                out@ + row_candidates(c, used@, y as int, x as int) + grid_candidates(
                    c,
                    used@,
                    y + step,
                ) == fill_candidates(c, used@),
            decreases w + step - x,
        {
            let ghost before = out@;
            proof {
                lemma_cell_index_bounds(w as int, h as int, x as int, y as int);
                assert(y * w <= y * w + x);
            }
            let near = excluded.contains(&((y as u64) * (w as u64) + (x as u64)));
            if !near {
                out.push((x as i32, y as i32));
            }
            assert(before + row_candidates(c, used@, y as int, x as int) =~= out@
                + row_candidates(c, used@, y as int, x + step));
            x = x + step;
        }
        assert(row_candidates(c, used@, y as int, x as int) =~= Seq::<(i32, i32)>::empty());
        assert(out@ + grid_candidates(c, used@, y + step) =~= out@ + row_candidates(
            c,
            used@,
            y as int,
            x as int,
        ) + grid_candidates(c, used@, y + step));
        y = y + step;
    }
    assert(out@ =~= out@ + grid_candidates(c, used@, y as int));
    out
}

/// Shuffle `v` with the fixed-seed Fisher-Yates shuffle.
fn shuffle_cells(v: &mut Vec<(i32, i32)>)
    ensures
        final(v)@ == shuffled(old(v)@),
{
    let n = v.len();
    if n == 0 {
        return;
    }
    let ghost orig = v@;
    let mut state: u64 = SHUFFLE_SEED;
    let mut i: usize = n - 1;
    while i >= 1
        invariant
            n == orig.len(),
            v@.len() == n,
            i < n,
            shuffle_from(v@, i as nat, state) == shuffled(orig),
        decreases i,
    {
        state = state.wrapping_mul(6364136223846793005).wrapping_add(1442695040888963407);
        let high = state >> 33u64;
        assert(high < 0x8000_0000u64) by (bit_vector)
            requires
                high == state >> 33u64,
        ;
        let j = (high as usize) % (i + 1);
        let a = v[i];
        let b = v[j];
        let ghost before = v@;
        v.set(i, b);
        v.set(j, a);
        assert(v@ =~= swapped(before, i as int, j as int));
        i = i - 1;
    }
}

/// Lexicographic comparison of cells.
fn cell_le_exec(a: (i32, i32), b: (i32, i32)) -> (r: bool)
    ensures
        r == cell_le(a, b),
{
    a.0 < b.0 || (a.0 == b.0 && a.1 <= b.1)
}

/// Merge two sorted lists of cells into one sorted list.
fn merge_cells(a: &Vec<(i32, i32)>, b: &Vec<(i32, i32)>) -> (r: Vec<(i32, i32)>)
    requires
        cells_sorted(a@),
        cells_sorted(b@),
    ensures
        cells_sorted(r@),
        r@.to_multiset() == a@.to_multiset().add(b@.to_multiset()),
{
    broadcast use vstd::seq_lib::lemma_multiset_commutative;

    let mut r: Vec<(i32, i32)> = Vec::new();
    let mut i: usize = 0;
    let mut j: usize = 0;
    while i < a.len() || j < b.len()
        invariant
            cells_sorted(a@),
            cells_sorted(b@),
            i <= a.len(),
            j <= b.len(),
            cells_sorted(r@),
            r@.len() == i + j,
            r@.to_multiset() == a@.take(i as int).to_multiset().add(b@.take(j as int).to_multiset()),
            r@.len() > 0 && i < a.len() ==> cell_le(r@.last(), a@[i as int]),
            r@.len() > 0 && j < b.len() ==> cell_le(r@.last(), b@[j as int]),
        decreases a.len() + b.len() - i - j,
    {
        let ghost before = r@;
        if j >= b.len() || (i < a.len() && cell_le_exec(a[i], b[j])) {
            r.push(a[i]);
            assert(a@.take(i + 1) =~= a@.take(i as int).push(a@[i as int]));
            i = i + 1;
        } else {
            r.push(b[j]);
            assert(b@.take(j + 1) =~= b@.take(j as int).push(b@[j as int]));
            j = j + 1;
        }
        assert(r@ =~= before.push(r@.last()));
    }
    assert(a@.take(a.len() as int) =~= a@);
    assert(b@.take(b.len() as int) =~= b@);
    r
}

/// Sort cells lexicographically (merge sort).
fn sort_cells(v: Vec<(i32, i32)>) -> (r: Vec<(i32, i32)>)
    ensures
        cells_sorted(r@),
        r@.to_multiset() == v@.to_multiset(),
    decreases v@.len(),
{
    broadcast use vstd::seq_lib::lemma_multiset_commutative;

    let n = v.len();
    if n <= 1 {
        return v;
    }
    let mut left = v;
    let ghost whole = left@;
    let right = left.split_off(n / 2);
    assert(whole =~= left@ + right@);
    let ls = sort_cells(left);
    let rs = sort_cells(right);
    merge_cells(&ls, &rs)
}

/// Compute the dummy fill cells: the first `target` candidates of the
/// fixed-seed shuffle, sorted. `target` is the number of fill cells the
/// fill density asks for on this canvas; with `target` zero nothing is
/// filled, and the configuration is not read. A grid cell narrower than
/// the minimum width gets no fill.
pub fn compute_fill_cells(cfg: &FillConfig, used: &[(i32, i32)], target: usize) -> (r: Vec<
    (i32, i32),
>)
    requires
        target > 0 ==> fill_config_ok(*cfg),
    ensures
        r@ == fill_cells(*cfg, used@, target as int),
        cells_sorted(r@),
        r@.to_multiset() == chosen_fill(*cfg, used@, target as int).to_multiset(),
{
    if target == 0 {
        let r: Vec<(i32, i32)> = Vec::new();
        let ghost s = shuffled(fill_candidates(*cfg, used@));
        assert(chosen_fill(*cfg, used@, 0) =~= Seq::<(i32, i32)>::empty());
        proof {
            lemma_sorted_is_fill(*cfg, used@, 0, r@);
        }
        return r;
    }
    let mut cells = collect_candidates(cfg, used);
    shuffle_cells(&mut cells);
    let ghost s = cells@;
    cells.truncate(target);
    assert(cells@ =~= chosen_fill(*cfg, used@, target as int));
    let r = sort_cells(cells);
    proof {
        lemma_sorted_is_fill(*cfg, used@, target as int, r@);
    }
    r
}

/// Cell `p` is a legal place for fill: as wide as the minimum width, inside
/// the canvas, on the fill pitch grid, and outside the exclusion zone of
/// every used cell.
pub open spec fn legal_fill_cell(c: FillConfig, used: Seq<(i32, i32)>, p: (i32, i32)) -> bool {
    &&& fill_wide_enough(c)
    &&& 0 <= p.0 < c.canvas_width_px
    &&& 0 <= p.1 < c.canvas_height_px
    &&& (p.0 as int) % fill_pitch(c) == 0
    &&& (p.1 as int) % fill_pitch(c) == 0
    &&& !near_used(used, exclusion_radius(c), p.0 as int, p.1 as int)
}

proof fn lemma_row_candidates_legal(c: FillConfig, used: Seq<(i32, i32)>, y: int, x: int)
    requires
        fill_config_ok(c),
        fill_wide_enough(c),
        0 <= x,
        x % fill_pitch(c) == 0,
        0 <= y < c.canvas_height_px,
        y % fill_pitch(c) == 0,
    ensures
        forall|i: int|
            0 <= i < row_candidates(c, used, y, x).len() ==> legal_fill_cell(
                c,
                used,
                #[trigger] row_candidates(c, used, y, x)[i],
            ) && row_candidates(c, used, y, x)[i].0 >= x && row_candidates(c, used, y, x)[i].1 == y,
    decreases c.canvas_width_px + fill_pitch(c) - x,
{
    let p = fill_pitch(c);
    if x < c.canvas_width_px {
        assert((x + p) % p == 0) by (nonlinear_arith)
            requires
                x % p == 0,
                p > 0,
        ;
        lemma_row_candidates_legal(c, used, y, x + p);
        let here: Seq<(i32, i32)> = if near_used(used, exclusion_radius(c), x, y) {
            Seq::empty()
        } else {
            seq![(x as i32, y as i32)]
        };
        let rest = row_candidates(c, used, y, x + p);
        assert(row_candidates(c, used, y, x) =~= here + rest);
        assert forall|i: int| 0 <= i < (here + rest).len() implies legal_fill_cell(
            c,
            used,
            #[trigger] (here + rest)[i],
        ) && (here + rest)[i].0 >= x && (here + rest)[i].1 == y by {
            if i < here.len() {
                assert((here + rest)[i] == (x as i32, y as i32));
            } else {
                assert((here + rest)[i] == rest[i - here.len()]);
            }
        }
    }
}

proof fn lemma_grid_candidates_legal(c: FillConfig, used: Seq<(i32, i32)>, y: int)
    requires
        fill_config_ok(c),
        fill_wide_enough(c),
        0 <= y,
        y % fill_pitch(c) == 0,
    ensures
        forall|i: int|
            0 <= i < grid_candidates(c, used, y).len() ==> legal_fill_cell(
                c,
                used,
                #[trigger] grid_candidates(c, used, y)[i],
            ),
    decreases c.canvas_height_px + fill_pitch(c) - y,
{
    let p = fill_pitch(c);
    if y < c.canvas_height_px {
        assert((y + p) % p == 0) by (nonlinear_arith)
            requires
                y % p == 0,
                p > 0,
        ;
        assert(0int % p == 0);
        lemma_row_candidates_legal(c, used, y, 0);
        lemma_grid_candidates_legal(c, used, y + p);
        let row = row_candidates(c, used, y, 0);
        let rest = grid_candidates(c, used, y + p);
        assert(grid_candidates(c, used, y) =~= row + rest);
        assert forall|i: int| 0 <= i < (row + rest).len() implies legal_fill_cell(
            c,
            used,
            #[trigger] (row + rest)[i],
        ) by {
            if i < row.len() {
                assert((row + rest)[i] == row[i]);
            } else {
                assert((row + rest)[i] == rest[i - row.len()]);
            }
        }
    }
}

/// The shuffle only reorders.
pub proof fn lemma_shuffle_from_multiset<A>(s: Seq<A>, i: nat, state: u64)
    requires
        i < s.len(),
    ensures
        shuffle_from(s, i, state).to_multiset() == s.to_multiset(),
        shuffle_from(s, i, state).len() == s.len(),
    decreases i,
{
    broadcast use vstd::seq_lib::to_multiset_update;
    broadcast use vstd::multiset::group_multiset_axioms;

    if i > 0 {
        let next = lcg_next(state);
        let j = ((next >> 33u64) as int) % (i + 1) as int;
        let t = swapped(s, i as int, j);
        if i as int == j {
            assert(t =~= s);
        } else {
            let u = s.update(i as int, s[j]);
            assert(u.to_multiset() == s.to_multiset().insert(s[j]).remove(s[i as int]));
            assert(t.to_multiset() == u.to_multiset().insert(s[i as int]).remove(u[j]));
            assert(t.to_multiset() =~= s.to_multiset());
        }
        lemma_shuffle_from_multiset(t, (i - 1) as nat, next);
    }
}

/// Dummy fill respects the design rules: every fill cell lies inside the
/// canvas, on the fill pitch grid, and farther than the fill-to-metal
/// spacing from every used cell; and there are at most `target` of them.
pub proof fn lemma_fill_cells_legal(c: FillConfig, used: Seq<(i32, i32)>, target: int, i: int)
    requires
        fill_config_ok(c),
        0 <= target,
        0 <= i < fill_cells(c, used, target).len(),
    ensures
        legal_fill_cell(c, used, fill_cells(c, used, target)[i]),
        fill_cells(c, used, target).len() <= target,
{
    broadcast use vstd::seq_lib::group_to_multiset_ensures;

    let cands = fill_candidates(c, used);
    let sh = shuffled(cands);
    let ch = chosen_fill(c, used, target);
    let fc = fill_cells(c, used, target);
    lemma_cell_order_total();
    ch.lemma_sort_by_ensures(cell_order());
    if cands.len() > 0 {
        lemma_shuffle_from_multiset(cands, (cands.len() - 1) as nat, SHUFFLE_SEED);
    }
    assert(sh.to_multiset() == cands.to_multiset());
    assert(fc.to_multiset() == ch.to_multiset());
    let x = fc[i];
    assert(fc.contains(x));
    assert(fc.to_multiset().count(x) > 0);
    assert(ch.contains(x));
    let k = choose|k: int| 0 <= k < ch.len() && ch[k] == x;
    assert(sh[k] == x);
    assert(sh.contains(x));
    assert(sh.to_multiset().count(x) > 0);
    assert(cands.to_multiset().count(x) > 0);
    assert(cands.contains(x));
    let m = choose|m: int| 0 <= m < cands.len() && cands[m] == x;
    assert(fill_wide_enough(c));
    assert(0int % fill_pitch(c) == 0);
    lemma_grid_candidates_legal(c, used, 0);
    assert(legal_fill_cell(c, used, cands[m]));
    assert(fc.len() == fc.to_multiset().len());
    assert(ch.len() == ch.to_multiset().len());
}

/// Dummy fill never lands on a used (text) cell.
pub proof fn lemma_fill_avoids_used(
    c: FillConfig,
    used: Seq<(i32, i32)>,
    target: int,
    i: int,
    j: int,
)
    requires
        fill_config_ok(c),
        0 <= target,
        0 <= i < fill_cells(c, used, target).len(),
        0 <= j < used.len(),
    ensures
        fill_cells(c, used, target)[i] != used[j],
{
    lemma_fill_cells_legal(c, used, target, i);
    let p = fill_cells(c, used, target)[i];
    let e = exclusion_radius(c);
    assert(e >= 0) by (nonlinear_arith)
        requires
            e == (c.rules.fill_to_metal_spacing_nm as int + c.grid_nm as int - 1) / (c.grid_nm as int),
            c.grid_nm >= 1,
    ;
    if p == used[j] {
        assert(-e <= p.0 - used[j].0 <= e && -e <= p.1 - used[j].1 <= e);
        assert(near_used(used, e, p.0 as int, p.1 as int));
    }
}

/// Row-major order on cells: `a` comes before `b`.
pub open spec fn cell_row_major_before(a: (i32, i32), b: (i32, i32)) -> bool {
    a.1 < b.1 || (a.1 == b.1 && a.0 < b.0)
}

proof fn lemma_row_candidates_increasing(c: FillConfig, used: Seq<(i32, i32)>, y: int, x: int)
    requires
        fill_config_ok(c),
        fill_wide_enough(c),
        0 <= x,
        x % fill_pitch(c) == 0,
        0 <= y < c.canvas_height_px,
        y % fill_pitch(c) == 0,
    ensures
        forall|i: int, j: int|
            0 <= i < j < row_candidates(c, used, y, x).len() ==> (#[trigger] row_candidates(
                c,
                used,
                y,
                x,
            )[i]).0 < (#[trigger] row_candidates(c, used, y, x)[j]).0,
    decreases c.canvas_width_px + fill_pitch(c) - x,
{
    let p = fill_pitch(c);
    if x < c.canvas_width_px {
        assert((x + p) % p == 0) by (nonlinear_arith)
            requires
                x % p == 0,
                p > 0,
        ;
        lemma_row_candidates_increasing(c, used, y, x + p);
        lemma_row_candidates_legal(c, used, y, x + p);
        let here: Seq<(i32, i32)> = if near_used(used, exclusion_radius(c), x, y) {
            Seq::empty()
        } else {
            seq![(x as i32, y as i32)]
        };
        let rest = row_candidates(c, used, y, x + p);
        let all = here + rest;
        assert(row_candidates(c, used, y, x) =~= all);
        assert forall|i: int, j: int| 0 <= i < j < all.len() implies (#[trigger] all[i]).0 < (
        #[trigger] all[j]).0 by {
            if i < here.len() {
                assert(all[i] == (x as i32, y as i32));
                assert(all[j] == rest[j - here.len()]);
                assert(rest[j - here.len()].0 >= x + p);
            } else {
                assert(all[i] == rest[i - here.len()]);
                assert(all[j] == rest[j - here.len()]);
            }
        }
    }
}

proof fn lemma_grid_candidates_increasing(c: FillConfig, used: Seq<(i32, i32)>, y: int)
    requires
        fill_config_ok(c),
        fill_wide_enough(c),
        0 <= y,
        y % fill_pitch(c) == 0,
    ensures
        forall|i: int| 0 <= i < grid_candidates(c, used, y).len() ==> (#[trigger] grid_candidates(c, used, y)[i]).1 >= y,
        forall|i: int, j: int|
            0 <= i < j < grid_candidates(c, used, y).len() ==> cell_row_major_before(
                #[trigger] grid_candidates(c, used, y)[i],
                #[trigger] grid_candidates(c, used, y)[j],
            ),
    decreases c.canvas_height_px + fill_pitch(c) - y,
{
    let p = fill_pitch(c);
    if y < c.canvas_height_px {
        assert((y + p) % p == 0) by (nonlinear_arith)
            requires
                y % p == 0,
                p > 0,
        ;
        assert(0int % p == 0);
        lemma_row_candidates_legal(c, used, y, 0);
        lemma_row_candidates_increasing(c, used, y, 0);
        lemma_grid_candidates_increasing(c, used, y + p);
        let row = row_candidates(c, used, y, 0);
        let rest = grid_candidates(c, used, y + p);
        let all = row + rest;
        assert(grid_candidates(c, used, y) =~= all);
        assert forall|i: int| 0 <= i < all.len() implies (#[trigger] all[i]).1 >= y by {
            if i < row.len() {
                assert(all[i] == row[i]);
            } else {
                assert(all[i] == rest[i - row.len()]);
            }
        }
        assert forall|i: int, j: int| 0 <= i < j < all.len() implies cell_row_major_before(
            #[trigger] all[i],
            #[trigger] all[j],
        ) by {
            if j < row.len() {
                assert(all[i] == row[i] && all[j] == row[j]);
            } else if i < row.len() {
                assert(all[i] == row[i] && all[j] == rest[j - row.len()]);
            } else {
                assert(all[i] == rest[i - row.len()] && all[j] == rest[j - row.len()]);
            }
        }
    }
}

/// No cell is chosen twice for dummy fill.
pub proof fn lemma_fill_cells_distinct(c: FillConfig, used: Seq<(i32, i32)>, target: int)
    requires
        fill_config_ok(c),
        0 <= target,
    ensures
        fill_cells(c, used, target).no_duplicates(),
{
    broadcast use vstd::seq_lib::group_to_multiset_ensures;

    let cands = fill_candidates(c, used);
    let sh = shuffled(cands);
    let ch = chosen_fill(c, used, target);
    let fc = fill_cells(c, used, target);
    assert(0int % fill_pitch(c) == 0);
    if fill_wide_enough(c) {
        lemma_grid_candidates_increasing(c, used, 0);
    }
    assert(cands.no_duplicates());
    cands.lemma_multiset_has_no_duplicates();
    if cands.len() > 0 {
        lemma_shuffle_from_multiset(cands, (cands.len() - 1) as nat, SHUFFLE_SEED);
    }
    assert(sh.to_multiset() == cands.to_multiset());
    sh.lemma_multiset_has_no_duplicates_conv();
    assert(ch.no_duplicates());
    ch.lemma_multiset_has_no_duplicates();
    lemma_cell_order_total();
    ch.lemma_sort_by_ensures(cell_order());
    fc.lemma_multiset_has_no_duplicates_conv();
}

/// Two distinct multiples of `p > 0` are at least `p` apart.
proof fn lemma_multiples_apart(a: int, b: int, p: int)
    requires
        p > 0,
        a % p == 0,
        b % p == 0,
        a != b,
    ensures
        a - b >= p || b - a >= p,
{
    vstd::arithmetic::div_mod::lemma_fundamental_div_mod(a, p);
    vstd::arithmetic::div_mod::lemma_fundamental_div_mod(b, p);
    assert(a - b >= p || b - a >= p) by (nonlinear_arith)
        requires
            p > 0,
            a == p * (a / p),
            b == p * (b / p),
            a != b,
    {
        if a / p > b / p {
            assert(a / p - b / p >= 1);
            assert(a - b == p * (a / p - b / p));
        } else {
            assert(b / p - a / p >= 1);
            assert(b - a == p * (b / p - a / p));
        }
    }
}

/// Dummy fill keeps the minimum spacing: two different fill cells are at
/// least one fill pitch (spacing + 1 cells) apart horizontally or
/// vertically.
pub proof fn lemma_fill_spacing(c: FillConfig, used: Seq<(i32, i32)>, target: int, i: int, j: int)
    requires
        fill_config_ok(c),
        0 <= target,
        0 <= i < fill_cells(c, used, target).len(),
        0 <= j < fill_cells(c, used, target).len(),
        i != j,
    ensures
        ({
            let a = fill_cells(c, used, target)[i];
            let b = fill_cells(c, used, target)[j];
            a.0 - b.0 >= fill_pitch(c) || b.0 - a.0 >= fill_pitch(c) || a.1 - b.1 >= fill_pitch(c)
                || b.1 - a.1 >= fill_pitch(c)
        }),
{
    let fc = fill_cells(c, used, target);
    lemma_fill_cells_distinct(c, used, target);
    lemma_fill_cells_legal(c, used, target, i);
    lemma_fill_cells_legal(c, used, target, j);
    let a = fc[i];
    let b = fc[j];
    assert(a != b);
    if a.0 != b.0 {
        lemma_multiples_apart(a.0 as int, b.0 as int, fill_pitch(c));
    } else {
        lemma_multiples_apart(a.1 as int, b.1 as int, fill_pitch(c));
    }
}

proof fn lemma_near_used_same_set(u1: Seq<(i32, i32)>, u2: Seq<(i32, i32)>, e: int, x: int, y: int)
    requires
        u1.to_set() == u2.to_set(),
    ensures
        near_used(u1, e, x, y) == near_used(u2, e, x, y),
{
    if near_used(u1, e, x, y) {
        let k = choose|k: int|
            0 <= k < u1.len() && -e <= x - (#[trigger] u1[k]).0 <= e && -e <= y - u1[k].1 <= e;
        assert(u1.to_set().contains(u1[k]));
        assert(u2.contains(u1[k]));
        let j = choose|j: int| 0 <= j < u2.len() && u2[j] == u1[k];
        assert(-e <= x - u2[j].0 <= e && -e <= y - u2[j].1 <= e);
    }
    if near_used(u2, e, x, y) {
        let k = choose|k: int|
            0 <= k < u2.len() && -e <= x - (#[trigger] u2[k]).0 <= e && -e <= y - u2[k].1 <= e;
        assert(u2.to_set().contains(u2[k]));
        assert(u1.contains(u2[k]));
        let j = choose|j: int| 0 <= j < u1.len() && u1[j] == u2[k];
        assert(-e <= x - u1[j].0 <= e && -e <= y - u1[j].1 <= e);
    }
}

proof fn lemma_row_candidates_same_set(
    c: FillConfig,
    u1: Seq<(i32, i32)>,
    u2: Seq<(i32, i32)>,
    y: int,
    x: int,
)
    requires
        u1.to_set() == u2.to_set(),
    ensures
        row_candidates(c, u1, y, x) == row_candidates(c, u2, y, x),
    decreases c.canvas_width_px + fill_pitch(c) - x,
{
    if !(x >= c.canvas_width_px || fill_pitch(c) <= 0) {
        lemma_near_used_same_set(u1, u2, exclusion_radius(c), x, y);
        lemma_row_candidates_same_set(c, u1, u2, y, x + fill_pitch(c));
    }
}

proof fn lemma_grid_candidates_same_set(c: FillConfig, u1: Seq<(i32, i32)>, u2: Seq<(i32, i32)>, y: int)
    requires
        u1.to_set() == u2.to_set(),
    ensures
        grid_candidates(c, u1, y) == grid_candidates(c, u2, y),
    decreases c.canvas_height_px + fill_pitch(c) - y,
{
    if !(y >= c.canvas_height_px || fill_pitch(c) <= 0) {
        lemma_row_candidates_same_set(c, u1, u2, y, 0);
        lemma_grid_candidates_same_set(c, u1, u2, y + fill_pitch(c));
    }
}

/// The fill depends on the used cells only through the set they form: their
/// order and repetitions do not matter. This holds of every configuration
/// and target; as `compute_fill_cells` returns exactly `fill_cells`, two of
/// its calls whose used cells form the same set return the same cells.
pub proof fn lemma_fill_depends_on_used_set(
    c: FillConfig,
    u1: Seq<(i32, i32)>,
    u2: Seq<(i32, i32)>,
    target: int,
)
    requires
        u1.to_set() == u2.to_set(),
    ensures
        fill_cells(c, u1, target) == fill_cells(c, u2, target),
{
    lemma_grid_candidates_same_set(c, u1, u2, 0);
    assert(fill_candidates(c, u1) == fill_candidates(c, u2));
}

/// Rounding up a quotient covers the dividend: `ceil_div(a, g) * g >= a`.
proof fn lemma_ceil_div_covers(a: int, g: int)
    requires
        a >= 0,
        g >= 1,
    ensures
        ceil_div(a, g) >= 0,
        ceil_div(a, g) * g >= a,
{
    vstd::arithmetic::div_mod::lemma_fundamental_div_mod(a + g - 1, g);
    vstd::arithmetic::div_mod::lemma_mod_pos_bound(a + g - 1, g);
    let q = (a + g - 1) / g;
    let r = (a + g - 1) % g;
    assert(q >= 0 && q * g >= a) by (nonlinear_arith)
        requires
            a + g - 1 == g * q + r,
            0 <= r < g,
            a >= 0,
            g >= 1,
    ;
}

/// `d - 1` whole cells of `g` nanometres span at least `s` nanometres when
/// `d - 1` is at least `e` and `e` cells span at least `s`.
proof fn lemma_cells_span(d: int, e: int, g: int, s: int)
    requires
        d - 1 >= e,
        e >= 0,
        g >= 1,
        e * g >= s,
    ensures
        (d - 1) * g >= s,
{
    assert((d - 1) * g >= e * g) by (nonlinear_arith)
        requires
            d - 1 >= e,
            g >= 1,
    ;
}

/// Dummy fill keeps the fill-to-metal spacing, in nanometres: between any
/// fill cell and any used (text) cell lie, along one axis, whole grid cells
/// spanning at least `fill_to_metal_spacing_nm`.
pub proof fn lemma_fill_to_metal_nm(
    c: FillConfig,
    used: Seq<(i32, i32)>,
    target: int,
    i: int,
    j: int,
)
    requires
        fill_config_ok(c),
        0 <= target,
        0 <= i < fill_cells(c, used, target).len(),
        0 <= j < used.len(),
    ensures
        ({
            let f = fill_cells(c, used, target)[i];
            let u = used[j];
            let g = c.grid_nm as int;
            let s = c.rules.fill_to_metal_spacing_nm as int;
            ||| (f.0 - u.0 - 1) * g >= s
            ||| (u.0 - f.0 - 1) * g >= s
            ||| (f.1 - u.1 - 1) * g >= s
            ||| (u.1 - f.1 - 1) * g >= s
        }),
{
    lemma_fill_cells_legal(c, used, target, i);
    let f = fill_cells(c, used, target)[i];
    let u = used[j];
    let g = c.grid_nm as int;
    let s = c.rules.fill_to_metal_spacing_nm as int;
    let e = exclusion_radius(c);
    lemma_ceil_div_covers(s, g);
    assert(!(-e <= f.0 - u.0 <= e && -e <= f.1 - u.1 <= e));
    if f.0 - u.0 > e {
        lemma_cells_span(f.0 - u.0, e, g, s);
    } else if u.0 - f.0 > e {
        lemma_cells_span(u.0 - f.0, e, g, s);
    } else if f.1 - u.1 > e {
        lemma_cells_span(f.1 - u.1, e, g, s);
    } else {
        lemma_cells_span(u.1 - f.1, e, g, s);
    }
}

/// Dummy fill keeps the minimum spacing, in nanometres: between two
/// different fill cells lie, along one axis, at least one whole grid cell,
/// and whole cells spanning at least `min_spacing_nm`.
pub proof fn lemma_fill_spacing_nm(
    c: FillConfig,
    used: Seq<(i32, i32)>,
    target: int,
    i: int,
    j: int,
)
    requires
        fill_config_ok(c),
        0 <= target,
        0 <= i < fill_cells(c, used, target).len(),
        0 <= j < fill_cells(c, used, target).len(),
        i != j,
    ensures
        ({
            let a = fill_cells(c, used, target)[i];
            let b = fill_cells(c, used, target)[j];
            let g = c.grid_nm as int;
            let s = c.rules.min_spacing_nm as int;
            ||| a.0 - b.0 >= 2 && (a.0 - b.0 - 1) * g >= s
            ||| b.0 - a.0 >= 2 && (b.0 - a.0 - 1) * g >= s
            ||| a.1 - b.1 >= 2 && (a.1 - b.1 - 1) * g >= s
            ||| b.1 - a.1 >= 2 && (b.1 - a.1 - 1) * g >= s
        }),
{
    lemma_fill_spacing(c, used, target, i, j);
    let a = fill_cells(c, used, target)[i];
    let b = fill_cells(c, used, target)[j];
    let g = c.grid_nm as int;
    let s = c.rules.min_spacing_nm as int;
    let sc = spacing_cells(c);
    lemma_ceil_div_covers(s, g);
    assert(sc >= 1 && sc * g >= s) by (nonlinear_arith)
        requires
            sc >= ceil_div(s, g),
            ceil_div(s, g) * g >= s,
            sc >= 1,
            g >= 1,
    ;
    if a.0 - b.0 >= fill_pitch(c) {
        lemma_cells_span(a.0 - b.0, sc, g, s);
    } else if b.0 - a.0 >= fill_pitch(c) {
        lemma_cells_span(b.0 - a.0, sc, g, s);
    } else if a.1 - b.1 >= fill_pitch(c) {
        lemma_cells_span(a.1 - b.1, sc, g, s);
    } else {
        lemma_cells_span(b.1 - a.1, sc, g, s);
    }
}

/// Dummy fill keeps the minimum width: there is fill only where a grid
/// cell, the fill shape, is at least `min_width_nm` wide.
pub proof fn lemma_fill_width_nm(c: FillConfig, used: Seq<(i32, i32)>, target: int)
    requires
        fill_config_ok(c),
        0 <= target,
    ensures
        fill_cells(c, used, target).len() > 0 ==> c.rules.min_width_nm <= c.grid_nm,
{
    if fill_cells(c, used, target).len() > 0 {
        lemma_fill_cells_legal(c, used, target, 0);
    }
}

} // verus!
