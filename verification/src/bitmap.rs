//! 1-bit bitmaps of grid cells, with exact quarter-turn rotation, trimming
//! and decomposition of the lit pixels into horizontal runs.
use vstd::prelude::*;

verus! {

/// Abstract picture of a bitmap: its dimensions and the set of lit pixels,
/// each pixel written `(x, y)` with `y` growing downwards.
pub struct BitmapView {
    pub width: nat,
    pub height: nat,
    pub on: Set<(int, int)>,
}

impl BitmapView {
    pub open spec fn in_bounds(self, x: int, y: int) -> bool {
        0 <= x < self.width && 0 <= y < self.height
    }

    /// Every lit pixel lies inside the bitmap.
    pub open spec fn wf(self) -> bool {
        forall|p: (int, int)| #[trigger] self.on.contains(p) ==> self.in_bounds(p.0, p.1)
    }

    /// A bitmap of the given size with no pixel lit.
    pub open spec fn blank(width: nat, height: nat) -> BitmapView {
        BitmapView { width, height, on: Set::empty() }
    }

    /// The picture after writing `value` at `(x, y)`; a write outside the
    /// bitmap changes nothing.
    pub open spec fn with_pixel(self, x: int, y: int, value: bool) -> BitmapView {
        if self.in_bounds(x, y) {
            BitmapView {
                width: self.width,
                height: self.height,
                on: if value {
                    self.on.insert((x, y))
                } else {
                    self.on.remove((x, y))
                },
            }
        } else {
            self
        }
    }
}

impl BitmapView {
    /// The pixel of `self` that a quarter-turn rotation by `q` (taken mod 4,
    /// clockwise on screen) carries to `(a, b)`.
    pub open spec fn turn_source(self, q: int, a: int, b: int) -> (int, int) {
        let w = self.width as int;
        let h = self.height as int;
        if q % 4 == 1 {
            (b, h - 1 - a)
        } else if q % 4 == 2 {
            (w - 1 - a, h - 1 - b)
        } else if q % 4 == 3 {
            (w - 1 - b, a)
        } else {
            (a, b)
        }
    }

    /// Where a quarter-turn rotation by `q` carries pixel `(x, y)`.
    pub open spec fn turn_target(self, q: int, x: int, y: int) -> (int, int) {
        let w = self.width as int;
        let h = self.height as int;
        if q % 4 == 1 {
            (h - 1 - y, x)
        } else if q % 4 == 2 {
            (w - 1 - x, h - 1 - y)
        } else if q % 4 == 3 {
            (y, w - 1 - x)
        } else {
            (x, y)
        }
    }

    /// The picture rotated clockwise by `q` quarter turns: 90 degrees maps
    /// `(x, y)` to `(H - 1 - y, x)`, 180 to `(W - 1 - x, H - 1 - y)` and 270
    /// to `(y, W - 1 - x)`; odd turns swap width and height.
    pub open spec fn quarter_turns(self, q: int) -> BitmapView {
        BitmapView {
            width: if q % 4 == 1 || q % 4 == 3 { self.height } else { self.width },
            height: if q % 4 == 1 || q % 4 == 3 { self.width } else { self.height },
            on: Set::new(|p: (int, int)| self.on.contains(self.turn_source(q, p.0, p.1))),
        }
    }
}

/// A read gives back what the last write to that pixel wrote; a write
/// leaves every other pixel as it was, and a write outside the bitmap
/// changes nothing.
pub proof fn lemma_read_after_write(v: BitmapView, x: int, y: int, value: bool, p: (int, int))
    ensures
        v.in_bounds(x, y) ==> v.with_pixel(x, y, value).on.contains((x, y)) == value,
        p != (x, y) ==> v.with_pixel(x, y, value).on.contains(p) == v.on.contains(p),
        !v.in_bounds(x, y) ==> v.with_pixel(x, y, value) == v,
        v.with_pixel(x, y, value).width == v.width,
        v.with_pixel(x, y, value).height == v.height,
{
}

/// Quarter-turn rotations compose: turning by `a` and then by `b` is turning
/// by `a + b`.
pub proof fn lemma_quarter_turns_compose(v: BitmapView, a: int, b: int)
    requires
        0 <= a,
        0 <= b,
    ensures
        v.quarter_turns(a).quarter_turns(b) == v.quarter_turns(a + b),
{
    let lhs = v.quarter_turns(a).quarter_turns(b);
    let rhs = v.quarter_turns(a + b);
    assert((a + b) % 4 == (a % 4 + b % 4) % 4);
    assert(lhs.on =~= rhs.on);
}

/// Exact rotation is lossless: turning by `q` and then by the remaining
/// quarter turns of a full circle gives back the picture it started from.
pub proof fn lemma_quarter_turns_undone(v: BitmapView, q: int)
    requires
        0 <= q,
    ensures
        v.quarter_turns(q).quarter_turns(4 - q % 4) == v,
{
    lemma_quarter_turns_compose(v, q, 4 - q % 4);
    assert((q + (4 - q % 4)) % 4 == 0);
    assert(v.quarter_turns(q + (4 - q % 4)).on =~= v.on);
}

/// Exact rotation is lossless in count: a bitmap turned by any number of
/// quarter turns has as many lit pixels as before, and the same area.
pub proof fn lemma_quarter_turns_keep_count(b: Bitmap, q: int)
    requires
        b.valid(),
        0 <= q,
    ensures
        b@.on.finite(),
        b@.quarter_turns(q).on.finite(),
        b@.quarter_turns(q).on.len() == b@.on.len(),
        b@.quarter_turns(q).width * b@.quarter_turns(q).height == b@.width * b@.height,
{
    let v = b@;
    b.lemma_on_finite();
    let f = |p: (int, int)| v.turn_target(q, p.0, p.1);
    let r = v.quarter_turns(q);
    assert forall|p: (int, int)| #[trigger] v.turn_source(q, f(p).0, f(p).1) == p by {}
    assert forall|a: (int, int)| #[trigger] f(v.turn_source(q, a.0, a.1)) == a by {}
    assert forall|x1: (int, int), x2: (int, int)|
        v.on.contains(x1) && v.on.contains(x2) && #[trigger] f(x1) == #[trigger] f(x2) implies x1
        == x2 by {
        assert(v.turn_source(q, f(x1).0, f(x1).1) == x1);
        assert(v.turn_source(q, f(x2).0, f(x2).1) == x2);
    }
    assert forall|a: (int, int)| v.on.map(f).contains(a) <==> r.on.contains(a) by {
        if r.on.contains(a) {
            let p = v.turn_source(q, a.0, a.1);
            assert(v.on.contains(p) && a == f(p));
        }
        if v.on.map(f).contains(a) {
            let p = choose|p: (int, int)| v.on.contains(p) && a == f(p);
            assert(v.turn_source(q, a.0, a.1) == p);
        }
    }
    assert(v.on.map(f) =~= r.on);
    vstd::set_lib::lemma_map_size(v.on, r.on, f);
    assert(r.width * r.height == v.width * v.height) by (nonlinear_arith)
        requires
            (r.width == v.width && r.height == v.height) || (r.width == v.height && r.height
                == v.width),
    ;
}

/// Row-major order on pixels: `a` comes before `b`.
pub open spec fn row_major_before(a: (int, int), b: (int, int)) -> bool {
    a.1 < b.1 || (a.1 == b.1 && a.0 < b.0)
}

/// A grid-cell position given as unsigned coordinates, read as a pixel.
pub open spec fn as_pixel(c: (u32, u32)) -> (int, int) {
    (c.0 as int, c.1 as int)
}

/// The set of pixels `on` moved so that `(dx, dy)` becomes the origin.
pub open spec fn shifted(on: Set<(int, int)>, dx: int, dy: int) -> Set<(int, int)> {
    Set::new(|p: (int, int)| on.contains((p.0 + dx, p.1 + dy)))
}

/// `x0, y0, w, h` is the tightest box around the pixels of `on`: every
/// pixel lies inside it and each of its four edges touches a pixel.
pub open spec fn tight_box(on: Set<(int, int)>, x0: int, y0: int, w: int, h: int) -> bool {
    &&& w >= 1
    &&& h >= 1
    &&& forall|p: (int, int)| #[trigger]
        on.contains(p) ==> x0 <= p.0 < x0 + w && y0 <= p.1 < y0 + h
    &&& exists|p: (int, int)| #[trigger] on.contains(p) && p.0 == x0
    &&& exists|p: (int, int)| #[trigger] on.contains(p) && p.0 == x0 + w - 1
    &&& exists|p: (int, int)| #[trigger] on.contains(p) && p.1 == y0
    &&& exists|p: (int, int)| #[trigger] on.contains(p) && p.1 == y0 + h - 1
}

/// Two tight boxes around the same pixels are the same box.
pub proof fn lemma_tight_box_unique(
    on: Set<(int, int)>,
    x0: int,
    y0: int,
    w: int,
    h: int,
    x1: int,
    y1: int,
    w1: int,
    h1: int,
)
    requires
        tight_box(on, x0, y0, w, h),
        tight_box(on, x1, y1, w1, h1),
    ensures
        x0 == x1,
        y0 == y1,
        w == w1,
        h == h1,
{
    let a = choose|p: (int, int)| #[trigger] on.contains(p) && p.0 == x0;
    let b = choose|p: (int, int)| #[trigger] on.contains(p) && p.0 == x1;
    let c = choose|p: (int, int)| #[trigger] on.contains(p) && p.0 == x0 + w - 1;
    let d = choose|p: (int, int)| #[trigger] on.contains(p) && p.0 == x1 + w1 - 1;
    let e = choose|p: (int, int)| #[trigger] on.contains(p) && p.1 == y0;
    let f = choose|p: (int, int)| #[trigger] on.contains(p) && p.1 == y1;
    let g = choose|p: (int, int)| #[trigger] on.contains(p) && p.1 == y0 + h - 1;
    let k = choose|p: (int, int)| #[trigger] on.contains(p) && p.1 == y1 + h1 - 1;
    assert(on.contains(a) && on.contains(b) && on.contains(c) && on.contains(d));
    assert(on.contains(e) && on.contains(f) && on.contains(g) && on.contains(k));
}

/// Trimming is idempotent: the trimmed pixels sit tightly at the origin,
/// so trimming them again moves nothing and keeps the size.
pub proof fn lemma_trim_idempotent(
    on: Set<(int, int)>,
    x0: int,
    y0: int,
    w: int,
    h: int,
    x1: int,
    y1: int,
    w1: int,
    h1: int,
)
    requires
        tight_box(on, x0, y0, w, h),
        tight_box(shifted(on, x0, y0), x1, y1, w1, h1),
    ensures
        x1 == 0,
        y1 == 0,
        w1 == w,
        h1 == h,
        shifted(shifted(on, x0, y0), x1, y1) == shifted(on, x0, y0),
{
    let s = shifted(on, x0, y0);
    assert forall|p: (int, int)| #[trigger] s.contains(p) implies 0 <= p.0 < w && 0 <= p.1 < h by {
        assert(on.contains((p.0 + x0, p.1 + y0)));
    }
    let a = choose|p: (int, int)| #[trigger] on.contains(p) && p.0 == x0;
    let c = choose|p: (int, int)| #[trigger] on.contains(p) && p.0 == x0 + w - 1;
    let e = choose|p: (int, int)| #[trigger] on.contains(p) && p.1 == y0;
    let g = choose|p: (int, int)| #[trigger] on.contains(p) && p.1 == y0 + h - 1;
    assert(s.contains((a.0 - x0, a.1 - y0)));
    assert(s.contains((c.0 - x0, c.1 - y0)));
    assert(s.contains((e.0 - x0, e.1 - y0)));
    assert(s.contains((g.0 - x0, g.1 - y0)));
    assert(tight_box(s, 0, 0, w, h));
    lemma_tight_box_unique(s, 0, 0, w, h, x1, y1, w1, h1);
    assert(shifted(s, x1, y1) =~= s);
}

/// A rectangle of grid cells: `w` x `h` cells with top-left cell `(x, y)`.
#[derive(Debug, Clone, Copy, PartialEq, Eq)]
pub struct Rect {
    pub x: u32,
    pub y: u32,
    pub w: u32,
    pub h: u32,
}

/// Rectangle `r` contains pixel `p`.
pub open spec fn rect_covers(r: Rect, p: (int, int)) -> bool {
    r.x <= p.0 < r.x + r.w && r.y <= p.1 < r.y + r.h
}

/// `r` is a maximal horizontal run of lit pixels of `on`: one row high,
/// fully lit, and dark (or outside) just left and just right of it.
pub open spec fn is_run(on: Set<(int, int)>, r: Rect) -> bool {
    &&& r.h == 1
    &&& r.w >= 1
    &&& forall|i: int| 0 <= i < r.w ==> #[trigger] on.contains((r.x + i, r.y as int))
    &&& !on.contains((r.x - 1, r.y as int))
    &&& !on.contains((r.x + r.w, r.y as int))
}

/// `rs` lists the maximal horizontal runs of lit pixels of `v`, each once,
/// in row-major order of their left ends.
pub open spec fn runs_of(v: BitmapView, rs: Seq<Rect>) -> bool {
    &&& forall|i: int| 0 <= i < rs.len() ==> is_run(v.on, #[trigger] rs[i])
    &&& forall|p: (int, int)| #[trigger]
        v.on.contains(p) ==> exists|i: int| 0 <= i < rs.len() && rect_covers(#[trigger] rs[i], p)
    &&& forall|i: int, j: int|
        0 <= i < j < rs.len() ==> row_major_before(
            (rs[i].x as int, rs[i].y as int),
            (rs[j].x as int, rs[j].y as int),
        )
}

/// Two sequences, each strictly increasing in the same strict order, that
/// hold the same elements are equal.
pub proof fn lemma_strictly_sorted_unique<A>(a: Seq<A>, b: Seq<A>, lt: spec_fn(A, A) -> bool)
    requires
        forall|x: A, y: A| #[trigger] lt(x, y) ==> !lt(y, x),
        forall|i: int, j: int| 0 <= i < j < a.len() ==> lt(a[i], a[j]),
        forall|i: int, j: int| 0 <= i < j < b.len() ==> lt(b[i], b[j]),
        forall|i: int| 0 <= i < a.len() ==> b.contains(#[trigger] a[i]),
        forall|i: int| 0 <= i < b.len() ==> a.contains(#[trigger] b[i]),
    ensures
        a == b,
    decreases a.len(),
{
    if a.len() == 0 {
        if b.len() > 0 {
            assert(a.contains(b[0]));
        }
        assert(a =~= b);
    } else if b.len() == 0 {
        assert(b.contains(a[0]));
    } else {
        assert(b.contains(a[0]));
        assert(a.contains(b[0]));
        let j = choose|j: int| 0 <= j < b.len() && b[j] == a[0];
        let k = choose|k: int| 0 <= k < a.len() && a[k] == b[0];
        if j > 0 {
            assert(lt(b[0], b[j]));
            if k > 0 {
                assert(lt(a[0], a[k]));
            } else {
                assert(lt(a[0], a[0]));
            }
        }
        assert(a[0] == b[0]);
        let ta = a.drop_first();
        let tb = b.drop_first();
        assert forall|i: int| 0 <= i < ta.len() implies tb.contains(#[trigger] ta[i]) by {
            assert(b.contains(a[i + 1]));
            let m = choose|m: int| 0 <= m < b.len() && b[m] == a[i + 1];
            if m == 0 {
                assert(lt(a[0], a[i + 1]));
            }
            assert(tb[m - 1] == ta[i]);
        }
        assert forall|i: int| 0 <= i < tb.len() implies ta.contains(#[trigger] tb[i]) by {
            assert(a.contains(b[i + 1]));
            let m = choose|m: int| 0 <= m < a.len() && a[m] == b[i + 1];
            if m == 0 {
                assert(lt(b[0], b[i + 1]));
            }
            assert(ta[m - 1] == tb[i]);
        }
        lemma_strictly_sorted_unique(ta, tb, lt);
        assert(a =~= seq![a[0]] + ta);
        assert(b =~= seq![b[0]] + tb);
    }
}

/// Two maximal runs that share a pixel are the same run.
pub proof fn lemma_runs_same(on: Set<(int, int)>, r1: Rect, r2: Rect, p: (int, int))
    requires
        is_run(on, r1),
        is_run(on, r2),
        rect_covers(r1, p),
        rect_covers(r2, p),
    ensures
        r1 == r2,
{
    if r1.x < r2.x {
        assert(on.contains((r1.x + (r2.x - 1 - r1.x), r1.y as int)));
    } else if r2.x < r1.x {
        assert(on.contains((r2.x + (r1.x - 1 - r2.x), r2.y as int)));
    }
    if r1.w < r2.w {
        assert(on.contains((r2.x + r1.w, r2.y as int)));
    } else if r2.w < r1.w {
        assert(on.contains((r1.x + r2.w, r1.y as int)));
    }
}

/// The maximal horizontal runs of `v` in row-major order (unique, see
/// `lemma_runs_of_unique`).
pub open spec fn runs(v: BitmapView) -> Seq<Rect> {
    choose|rs: Seq<Rect>| runs_of(v, rs)
}

/// Order of runs by their left ends.
pub open spec fn run_before(a: Rect, b: Rect) -> bool {
    row_major_before((a.x as int, a.y as int), (b.x as int, b.y as int))
}

/// A picture has only one list of its runs.
pub proof fn lemma_runs_of_unique(v: BitmapView, a: Seq<Rect>, b: Seq<Rect>)
    requires
        runs_of(v, a),
        runs_of(v, b),
    ensures
        a == b,
{
    assert forall|i: int| 0 <= i < a.len() implies b.contains(#[trigger] a[i]) by {
        let r = a[i];
        assert(is_run(v.on, r));
        let p = (r.x as int, r.y as int);
        assert(v.on.contains((r.x + 0, r.y as int)));
        let j = choose|j: int| 0 <= j < b.len() && rect_covers(#[trigger] b[j], p);
        lemma_runs_same(v.on, r, b[j], p);
    }
    assert forall|i: int| 0 <= i < b.len() implies a.contains(#[trigger] b[i]) by {
        let r = b[i];
        assert(is_run(v.on, r));
        let p = (r.x as int, r.y as int);
        assert(v.on.contains((r.x + 0, r.y as int)));
        let j = choose|j: int| 0 <= j < a.len() && rect_covers(#[trigger] a[j], p);
        lemma_runs_same(v.on, r, a[j], p);
    }
    let lt = |x: Rect, y: Rect| run_before(x, y);
    lemma_strictly_sorted_unique(a, b, lt);
}

/// `s` lists the lit pixels of `v`, each once, in row-major order.
pub open spec fn lists_lit_pixels(v: BitmapView, s: Seq<(u32, u32)>) -> bool {
    &&& forall|i: int| 0 <= i < s.len() ==> v.on.contains(as_pixel(#[trigger] s[i]))
    &&& forall|p: (int, int)| #[trigger]
        v.on.contains(p) ==> exists|i: int| 0 <= i < s.len() && as_pixel(#[trigger] s[i]) == p
    &&& forall|i: int, j: int|
        0 <= i < j < s.len() ==> row_major_before(as_pixel(s[i]), as_pixel(s[j]))
}

/// The lit pixels of `v` in row-major order.
pub open spec fn lit_pixels(v: BitmapView) -> Seq<(u32, u32)> {
    choose|s: Seq<(u32, u32)>| lists_lit_pixels(v, s)
}

/// A picture has only one row-major listing of its lit pixels.
pub proof fn lemma_lit_pixels_unique(v: BitmapView, a: Seq<(u32, u32)>, b: Seq<(u32, u32)>)
    requires
        lists_lit_pixels(v, a),
        lists_lit_pixels(v, b),
    ensures
        a == b,
{
    assert forall|i: int| 0 <= i < a.len() implies b.contains(#[trigger] a[i]) by {
        let p = as_pixel(a[i]);
        assert(v.on.contains(p));
        let j = choose|j: int| 0 <= j < b.len() && as_pixel(#[trigger] b[j]) == p;
        assert(b[j] == a[i]);
    }
    assert forall|i: int| 0 <= i < b.len() implies a.contains(#[trigger] b[i]) by {
        let p = as_pixel(b[i]);
        assert(v.on.contains(p));
        let j = choose|j: int| 0 <= j < a.len() && as_pixel(#[trigger] a[j]) == p;
        assert(a[j] == b[i]);
    }
    let lt = |x: (u32, u32), y: (u32, u32)| row_major_before(as_pixel(x), as_pixel(y));
    lemma_strictly_sorted_unique(a, b, lt);
}

/// Merging pixels into runs loses nothing and overlaps nothing: the runs of
/// a picture cover exactly its lit pixels, and no pixel lies in two runs.
pub proof fn lemma_runs_partition(v: BitmapView, rs: Seq<Rect>, p: (int, int))
    requires
        runs_of(v, rs),
    ensures
        v.on.contains(p) <==> exists|i: int| 0 <= i < rs.len() && rect_covers(#[trigger] rs[i], p),
        forall|i: int, j: int|
            0 <= i < rs.len() && 0 <= j < rs.len() && rect_covers(rs[i], p) && rect_covers(
                rs[j],
                p,
            ) ==> i == j,
{
    if exists|i: int| 0 <= i < rs.len() && rect_covers(#[trigger] rs[i], p) {
        let i = choose|i: int| 0 <= i < rs.len() && rect_covers(#[trigger] rs[i], p);
        let r = rs[i];
        assert(is_run(v.on, r));
        assert(v.on.contains((r.x + (p.0 - r.x), r.y as int)));
    }
    assert forall|i: int, j: int|
        0 <= i < rs.len() && 0 <= j < rs.len() && rect_covers(rs[i], p) && rect_covers(
            rs[j],
            p,
        ) implies i == j by {
        let a = rs[i];
        let b = rs[j];
        assert(is_run(v.on, a));
        assert(is_run(v.on, b));
        if a.x < b.x {
            assert(v.on.contains((a.x + (b.x - 1 - a.x), a.y as int)));
        } else if b.x < a.x {
            assert(v.on.contains((b.x + (a.x - 1 - b.x), b.y as int)));
        }
        if i < j {
            assert(row_major_before((a.x as int, a.y as int), (b.x as int, b.y as int)));
        } else if j < i {
            assert(row_major_before((b.x as int, b.y as int), (a.x as int, a.y as int)));
        }
    }
}

/// The end of the lit stretch of row `y` that starts at lit pixel `x`: the
/// first dark position after it.
proof fn lemma_run_end(v: BitmapView, y: int, x: int) -> (e: int)
    requires
        v.wf(),
        v.on.contains((x, y)),
    ensures
        x < e <= v.width,
        forall|k: int| x <= k < e ==> #[trigger] v.on.contains((k, y)),
        !v.on.contains((e, y)),
    decreases v.width - x,
{
    if v.on.contains((x + 1, y)) {
        let e = lemma_run_end(v, y, x + 1);
        assert forall|k: int| x <= k < e implies #[trigger] v.on.contains((k, y)) by {
            if k > x {
                assert(v.on.contains((k, y)));
            }
        }
        e
    } else {
        x + 1
    }
}

/// The maximal runs of row `y` that start at or after `x`, where `x` is the
/// left edge or follows a dark pixel.
proof fn lemma_row_runs(v: BitmapView, y: int, x: int) -> (rs: Seq<Rect>)
    requires
        v.wf(),
        v.width <= u32::MAX,
        0 <= y < v.height <= u32::MAX,
        0 <= x,
        x == 0 || !v.on.contains((x - 1, y)),
    ensures
        forall|i: int| 0 <= i < rs.len() ==> is_run(v.on, #[trigger] rs[i]),
        forall|i: int| 0 <= i < rs.len() ==> (#[trigger] rs[i]).y == y && rs[i].x >= x,
        forall|p: (int, int)| #[trigger]
            v.on.contains(p) && p.1 == y && p.0 >= x ==> exists|i: int|
                0 <= i < rs.len() && rect_covers(#[trigger] rs[i], p),
        forall|i: int, j: int| 0 <= i < j < rs.len() ==> rs[i].x < rs[j].x,
    decreases v.width + 1 - x,
{
    if x >= v.width {
        assert forall|p: (int, int)| #[trigger] v.on.contains(p) && p.1 == y && p.0 >= x implies false by {
        }
        Seq::empty()
    } else if !v.on.contains((x, y)) {
        let rs = lemma_row_runs(v, y, x + 1);
        assert forall|p: (int, int)| #[trigger] v.on.contains(p) && p.1 == y && p.0 >= x implies exists|i: int|
                0 <= i < rs.len() && rect_covers(#[trigger] rs[i], p) by {
            assert(p.0 != x);
        }
        rs
    } else {
        let e = lemma_run_end(v, y, x);
        let run = Rect { x: x as u32, y: y as u32, w: (e - x) as u32, h: 1 };
        assert forall|i: int| 0 <= i < run.w implies #[trigger] v.on.contains((run.x + i, run.y as int)) by {
            assert(v.on.contains((x + i, y)));
        }
        assert(is_run(v.on, run));
        let rest = lemma_row_runs(v, y, e + 1);
        let rs = seq![run] + rest;
        assert forall|i: int| 0 <= i < rs.len() implies is_run(v.on, #[trigger] rs[i]) by {
            if i > 0 {
                assert(rs[i] == rest[i - 1]);
            }
        }
        assert forall|i: int| 0 <= i < rs.len() implies (#[trigger] rs[i]).y == y && rs[i].x >= x by {
            if i > 0 {
                assert(rs[i] == rest[i - 1]);
            }
        }
        assert forall|p: (int, int)| #[trigger] v.on.contains(p) && p.1 == y && p.0 >= x implies exists|i: int|
                0 <= i < rs.len() && rect_covers(#[trigger] rs[i], p) by {
            if p.0 < e {
                assert(rect_covers(rs[0], p));
            } else {
                assert(p.0 != e);
                let i = choose|i: int| 0 <= i < rest.len() && rect_covers(#[trigger] rest[i], p);
                assert(rs[i + 1] == rest[i]);
                assert(rect_covers(rs[i + 1], p));
            }
        }
        assert forall|i: int, j: int| 0 <= i < j < rs.len() implies rs[i].x < rs[j].x by {
            assert(rs[j] == rest[j - 1]);
            if i > 0 {
                assert(rs[i] == rest[i - 1]);
            }
        }
        rs
    }
}

/// The maximal runs of rows `y` and below, in row-major order.
proof fn lemma_rows_runs(v: BitmapView, y: int) -> (rs: Seq<Rect>)
    requires
        v.wf(),
        v.width <= u32::MAX,
        v.height <= u32::MAX,
        0 <= y,
    ensures
        forall|i: int| 0 <= i < rs.len() ==> is_run(v.on, #[trigger] rs[i]),
        forall|i: int| 0 <= i < rs.len() ==> (#[trigger] rs[i]).y >= y,
        forall|p: (int, int)| #[trigger]
            v.on.contains(p) && p.1 >= y ==> exists|i: int|
                0 <= i < rs.len() && rect_covers(#[trigger] rs[i], p),
        forall|i: int, j: int|
            0 <= i < j < rs.len() ==> row_major_before(
                (rs[i].x as int, rs[i].y as int),
                (rs[j].x as int, rs[j].y as int),
            ),
    decreases v.height + 1 - y,
{
    if y >= v.height {
        assert forall|p: (int, int)| #[trigger] v.on.contains(p) && p.1 >= y implies false by {}
        Seq::empty()
    } else {
        let row = lemma_row_runs(v, y, 0);
        let rest = lemma_rows_runs(v, y + 1);
        let rs = row + rest;
        assert forall|i: int| 0 <= i < rs.len() implies is_run(v.on, #[trigger] rs[i]) by {
            if i >= row.len() {
                assert(rs[i] == rest[i - row.len()]);
            }
        }
        assert forall|i: int| 0 <= i < rs.len() implies (#[trigger] rs[i]).y >= y by {
            if i >= row.len() {
                assert(rs[i] == rest[i - row.len()]);
            }
        }
        assert forall|p: (int, int)| #[trigger] v.on.contains(p) && p.1 >= y implies exists|i: int|
                0 <= i < rs.len() && rect_covers(#[trigger] rs[i], p) by {
            if p.1 == y {
                let i = choose|i: int| 0 <= i < row.len() && rect_covers(#[trigger] row[i], p);
                assert(rs[i] == row[i]);
                assert(rect_covers(rs[i], p));
            } else {
                let i = choose|i: int| 0 <= i < rest.len() && rect_covers(#[trigger] rest[i], p);
                assert(rs[i + row.len()] == rest[i]);
                assert(rect_covers(rs[i + row.len()], p));
            }
        }
        assert forall|i: int, j: int| 0 <= i < j < rs.len() implies row_major_before(
            (rs[i].x as int, rs[i].y as int),
            (rs[j].x as int, rs[j].y as int),
        ) by {
            if j < row.len() {
                assert(rs[i] == row[i] && rs[j] == row[j]);
            } else if i < row.len() {
                assert(rs[i] == row[i] && rs[j] == rest[j - row.len()]);
            } else {
                assert(rs[i] == rest[i - row.len()] && rs[j] == rest[j - row.len()]);
            }
        }
        rs
    }
}

/// The lit pixels of row `y` at or right of column `x`, left to right.
proof fn lemma_row_pixels(v: BitmapView, y: int, x: int) -> (s: Seq<(u32, u32)>)
    requires
        v.wf(),
        v.width <= u32::MAX,
        0 <= y < v.height <= u32::MAX,
        0 <= x,
    ensures
        forall|i: int| 0 <= i < s.len() ==> v.on.contains(as_pixel(#[trigger] s[i])),
        forall|i: int| 0 <= i < s.len() ==> (#[trigger] s[i]).1 == y && s[i].0 >= x,
        forall|p: (int, int)| #[trigger]
            v.on.contains(p) && p.1 == y && p.0 >= x ==> exists|i: int|
                0 <= i < s.len() && as_pixel(#[trigger] s[i]) == p,
        forall|i: int, j: int| 0 <= i < j < s.len() ==> s[i].0 < s[j].0,
    decreases v.width + 1 - x,
{
    if x >= v.width {
        assert forall|p: (int, int)| #[trigger] v.on.contains(p) && p.1 == y && p.0 >= x implies false by {
        }
        Seq::empty()
    } else {
        let rest = lemma_row_pixels(v, y, x + 1);
        if v.on.contains((x, y)) {
            let s = seq![(x as u32, y as u32)] + rest;
            assert forall|i: int| 0 <= i < s.len() implies v.on.contains(as_pixel(#[trigger] s[i])) by {
                if i > 0 {
                    assert(s[i] == rest[i - 1]);
                }
            }
            assert forall|i: int| 0 <= i < s.len() implies (#[trigger] s[i]).1 == y && s[i].0 >= x by {
                if i > 0 {
                    assert(s[i] == rest[i - 1]);
                }
            }
            assert forall|p: (int, int)| #[trigger] v.on.contains(p) && p.1 == y && p.0 >= x implies exists|i: int|
                    0 <= i < s.len() && as_pixel(#[trigger] s[i]) == p by {
                if p.0 == x {
                    assert(as_pixel(s[0]) == p);
                } else {
                    let i = choose|i: int| 0 <= i < rest.len() && as_pixel(#[trigger] rest[i]) == p;
                    assert(s[i + 1] == rest[i]);
                    assert(as_pixel(s[i + 1]) == p);
                }
            }
            assert forall|i: int, j: int| 0 <= i < j < s.len() implies s[i].0 < s[j].0 by {
                assert(s[j] == rest[j - 1]);
                if i > 0 {
                    assert(s[i] == rest[i - 1]);
                }
            }
            s
        } else {
            assert forall|p: (int, int)| #[trigger] v.on.contains(p) && p.1 == y && p.0 >= x implies exists|i: int|
                    0 <= i < rest.len() && as_pixel(#[trigger] rest[i]) == p by {
                assert(p.0 != x);
            }
            rest
        }
    }
}

/// The lit pixels of rows `y` and below, in row-major order.
proof fn lemma_rows_pixels(v: BitmapView, y: int) -> (s: Seq<(u32, u32)>)
    requires
        v.wf(),
        v.width <= u32::MAX,
        v.height <= u32::MAX,
        0 <= y,
    ensures
        forall|i: int| 0 <= i < s.len() ==> v.on.contains(as_pixel(#[trigger] s[i])),
        forall|i: int| 0 <= i < s.len() ==> (#[trigger] s[i]).1 >= y,
        forall|p: (int, int)| #[trigger]
            v.on.contains(p) && p.1 >= y ==> exists|i: int|
                0 <= i < s.len() && as_pixel(#[trigger] s[i]) == p,
        forall|i: int, j: int|
            0 <= i < j < s.len() ==> row_major_before(as_pixel(s[i]), as_pixel(s[j])),
    decreases v.height + 1 - y,
{
    if y >= v.height {
        assert forall|p: (int, int)| #[trigger] v.on.contains(p) && p.1 >= y implies false by {}
        Seq::empty()
    } else {
        let row = lemma_row_pixels(v, y, 0);
        let rest = lemma_rows_pixels(v, y + 1);
        let s = row + rest;
        assert forall|i: int| 0 <= i < s.len() implies v.on.contains(as_pixel(#[trigger] s[i])) by {
            if i >= row.len() {
                assert(s[i] == rest[i - row.len()]);
            }
        }
        assert forall|i: int| 0 <= i < s.len() implies (#[trigger] s[i]).1 >= y by {
            if i >= row.len() {
                assert(s[i] == rest[i - row.len()]);
            }
        }
        assert forall|p: (int, int)| #[trigger] v.on.contains(p) && p.1 >= y implies exists|i: int|
                0 <= i < s.len() && as_pixel(#[trigger] s[i]) == p by {
            if p.1 == y {
                let i = choose|i: int| 0 <= i < row.len() && as_pixel(#[trigger] row[i]) == p;
                assert(s[i] == row[i]);
                assert(as_pixel(s[i]) == p);
            } else {
                let i = choose|i: int| 0 <= i < rest.len() && as_pixel(#[trigger] rest[i]) == p;
                assert(s[i + row.len()] == rest[i]);
                assert(as_pixel(s[i + row.len()]) == p);
            }
        }
        assert forall|i: int, j: int| 0 <= i < j < s.len() implies row_major_before(
            as_pixel(s[i]),
            as_pixel(s[j]),
        ) by {
            if j < row.len() {
                assert(s[i] == row[i] && s[j] == row[j]);
            } else if i < row.len() {
                assert(s[i] == row[i] && s[j] == rest[j - row.len()]);
            } else {
                assert(s[i] == rest[i - row.len()] && s[j] == rest[j - row.len()]);
            }
        }
        s
    }
}

/// The lit pixels of a bitmap, grouped into rectangles.
#[derive(Debug)]
pub enum MergedRegion {
    /// A closed outline of grid-cell corners.
    Polygon(Vec<(i32, i32)>),
    /// Rectangles of grid cells.
    Rectangles(Vec<Rect>),
}

/// A 1-bit bitmap stored row-major, one byte (0 or 1) per pixel.
#[derive(Debug, Clone)]
pub struct Bitmap {
    width: u32,
    height: u32,
    data: Vec<u8>,
}

/// Row-major position of pixel `(x, y)` in a bitmap `w` pixels wide.
pub open spec fn cell_index(w: int, x: int, y: int) -> int {
    y * w + x
}

pub proof fn lemma_cell_index_bounds(w: int, h: int, x: int, y: int)
    requires
        0 <= x < w,
        0 <= y < h,
    ensures
        0 <= cell_index(w, x, y) < w * h,
{
    assert(0 <= y * w + x < w * h) by (nonlinear_arith)
        requires
            0 <= x < w,
            0 <= y < h,
    ;
}

pub proof fn lemma_cell_index_injective(w: int, x1: int, y1: int, x2: int, y2: int)
    requires
        0 <= x1 < w,
        0 <= x2 < w,
        cell_index(w, x1, y1) == cell_index(w, x2, y2),
    ensures
        x1 == x2,
        y1 == y2,
{
    assert(y1 == y2) by (nonlinear_arith)
        requires
            0 <= x1 < w,
            0 <= x2 < w,
            y1 * w + x1 == y2 * w + x2,
    {
        if y1 < y2 {
            assert(y1 * w + w <= y2 * w);
        } else if y2 < y1 {
            assert(y2 * w + w <= y1 * w);
        }
    }
}

impl View for Bitmap {
    type V = BitmapView;

    closed spec fn view(&self) -> BitmapView {
        BitmapView {
            width: self.width as nat,
            height: self.height as nat,
            on: Set::new(
                |p: (int, int)|
                    0 <= p.0 < self.width && 0 <= p.1 < self.height && self.data@[cell_index(
                        self.width as int,
                        p.0,
                        p.1,
                    )] != 0,
            ),
        }
    }
}

impl Bitmap {
    /// Internal consistency: one byte per pixel.
    pub closed spec fn valid(&self) -> bool {
        self.data@.len() == self.width as int * self.height as int
    }

    /// The pixel count of a valid bitmap fits in memory.
    pub proof fn lemma_area_fits(&self)
        requires
            self.valid(),
        ensures
            self@.width * self@.height <= usize::MAX,
    {
        assert(self.data@.len() == self.data.len());
    }

    /// Every valid bitmap has its list of runs.
    pub proof fn lemma_runs_exist(&self)
        requires
            self.valid(),
        ensures
            runs_of(self@, runs(self@)),
    {
        let v = self@;
        self.lemma_wf();
        let rs = lemma_rows_runs(v, 0);
        assert forall|p: (int, int)| #[trigger] v.on.contains(p) implies exists|i: int|
                0 <= i < rs.len() && rect_covers(#[trigger] rs[i], p) by {
            assert(p.1 >= 0);
        }
        assert(runs_of(v, rs));
    }

    /// Every valid bitmap has its row-major listing of lit pixels.
    pub proof fn lemma_lit_pixels_exist(&self)
        requires
            self.valid(),
        ensures
            lists_lit_pixels(self@, lit_pixels(self@)),
    {
        let v = self@;
        self.lemma_wf();
        let s = lemma_rows_pixels(v, 0);
        assert forall|p: (int, int)| #[trigger] v.on.contains(p) implies exists|i: int|
                0 <= i < s.len() && as_pixel(#[trigger] s[i]) == p by {
            assert(p.1 >= 0);
        }
        assert(lists_lit_pixels(v, s));
    }

    /// A bitmap has finitely many lit pixels.
    pub proof fn lemma_on_finite(&self)
        requires
            self.valid(),
        ensures
            self@.on.finite(),
    {
        let v = self@;
        self.lemma_lit_pixels_exist();
        let s = lit_pixels(v);
        let t = s.map_values(|c: (u32, u32)| as_pixel(c));
        assert forall|p: (int, int)| v.on.contains(p) <==> t.to_set().contains(p) by {
            if v.on.contains(p) {
                let i = choose|i: int| 0 <= i < s.len() && as_pixel(#[trigger] s[i]) == p;
                assert(t[i] == p);
                assert(t.contains(p));
            }
            if t.contains(p) {
                let i = choose|i: int| 0 <= i < t.len() && t[i] == p;
                assert(v.on.contains(as_pixel(s[i])));
            }
        }
        assert(v.on =~= t.to_set());
        vstd::seq_lib::seq_to_set_is_finite(t);
    }

    /// The lit pixels of any bitmap lie inside it.
    pub proof fn lemma_wf(&self)
        ensures
            self@.wf(),
    {
    }

    /// A bitmap of `width` x `height` pixels, all dark.
    pub fn new(width: u32, height: u32) -> (r: Bitmap)
        requires
            width as int * height as int <= usize::MAX,
        ensures
            r.valid(),
            r@ == BitmapView::blank(width as nat, height as nat),
    {
        let len = (width as usize) * (height as usize);
        let data = vec![0u8; len];
        assert forall|i: int| 0 <= i < data@.len() implies data@[i] == 0 by {
            assert(cloned(0u8, data@[i]));
        }
        let r = Bitmap { width, height, data };
        assert forall|p: (int, int)| !r@.on.contains(p) by {
            if 0 <= p.0 < width && 0 <= p.1 < height {
                lemma_cell_index_bounds(width as int, height as int, p.0, p.1);
            }
        }
        assert(r@.on =~= Set::empty());
        r
    }

    pub fn width(&self) -> (r: u32)
        ensures
            r == self@.width,
    {
        self.width
    }

    pub fn height(&self) -> (r: u32)
        ensures
            r == self@.height,
    {
        self.height
    }

    /// Row-major index of an in-bounds pixel.
    fn index_of(&self, x: u32, y: u32) -> (i: usize)
        requires
            self.valid(),
            x < self@.width,
            y < self@.height,
        ensures
            i == cell_index(self@.width as int, x as int, y as int),
            i < self.data@.len(),
    {
        proof {
            lemma_cell_index_bounds(self.width as int, self.height as int, x as int, y as int);
            assert(self.data@.len() == self.data.len());
            assert(y * self.width <= y * self.width + x);
        }
        (y as usize) * (self.width as usize) + (x as usize)
    }

    /// Light or clear pixel `(x, y)`; a write outside the bitmap is ignored.
    pub fn set(&mut self, x: u32, y: u32, on: bool)
        requires
            old(self).valid(),
        ensures
            final(self).valid(),
            final(self)@ == old(self)@.with_pixel(x as int, y as int, on),
    {
        if x < self.width && y < self.height {
            let i = self.index_of(x, y);
            let v: u8 = if on { 1 } else { 0 };
            let ghost w = self.width as int;
            let ghost h = self.height as int;
            let ghost before = self.data@;
            self.data.set(i, v);
            assert forall|p: (int, int)| 0 <= p.0 < w && 0 <= p.1 < h && p != (x as int, y as int)
                implies self.data@[cell_index(w, p.0, p.1)] == before[cell_index(w, p.0, p.1)] by {
                lemma_cell_index_bounds(w, h, p.0, p.1);
                if cell_index(w, p.0, p.1) == i {
                    lemma_cell_index_injective(w, p.0, p.1, x as int, y as int);
                }
            }
            if on {
                assert(self@.on =~= old(self)@.on.insert((x as int, y as int)));
            } else {
                assert(self@.on =~= old(self)@.on.remove((x as int, y as int)));
            }
        }
    }

    /// Rotate clockwise by `steps` quarter turns (taken mod 4), remapping
    /// every pixel exactly.
    pub fn rotate_cw_exact(&self, steps: u8) -> (r: Bitmap)
        requires
            self.valid(),
        ensures
            r.valid(),
            r@ == self@.quarter_turns(steps as int),
    {
        let q = steps % 4;
        let ghost v = self@;
        proof {
            self.lemma_wf();
        }
        if q == 0 {
            let r = self.duplicate();
            assert(r@.on =~= v.quarter_turns(steps as int).on);
            return r;
        }
        let w = self.width;
        let h = self.height;
        let (nw, nh) = if q == 2 {
            (w, h)
        } else {
            (h, w)
        };
        proof {
            self.lemma_area_fits();
            assert(nw as int * nh as int == w as int * h as int) by (nonlinear_arith)
                requires
                    (nw == w && nh == h) || (nw == h && nh == w),
            ;
        }
        let mut r = Bitmap::new(nw, nh);
        let mut y: u32 = 0;
        while y < h
            invariant
                self.valid(),
                v == self@,
                v.wf(),
                w == v.width,
                h == v.height,
                1 <= q <= 3,
                q == steps % 4,
                y <= h,
                q == 2 ==> (nw == w && nh == h),
                q != 2 ==> (nw == h && nh == w),
                r.valid(),
                r@.width == nw,
                r@.height == nh,
                r@.on == Set::new(
                    |p: (int, int)|
                        v.on.contains(v.turn_source(q as int, p.0, p.1)) && v.turn_source(
                            q as int,
                            p.0,
                            p.1,
                        ).1 < y,
                ),
            decreases h - y,
        {
            let mut x: u32 = 0;
            while x < w
                invariant
                    self.valid(),
                    v == self@,
                    v.wf(),
                    w == v.width,
                    h == v.height,
                    1 <= q <= 3,
                    q == steps % 4,
                    y < h,
                    x <= w,
                    q == 2 ==> (nw == w && nh == h),
                    q != 2 ==> (nw == h && nh == w),
                    r.valid(),
                    r@.width == nw,
                    r@.height == nh,
                    r@.on == Set::new(
                        |p: (int, int)|
                            v.on.contains(v.turn_source(q as int, p.0, p.1)) && row_major_before(
                                v.turn_source(q as int, p.0, p.1),
                                (x as int, y as int),
                            ),
                    ),
                decreases w - x,
            {
                let ghost before = r@;
                let ghost target = v.turn_target(q as int, x as int, y as int);
                let lit = self.get(x, y);
                if lit {
                    let (dx, dy) = if q == 1 {
                        (h - 1 - y, x)
                    } else if q == 2 {
                        (w - 1 - x, h - 1 - y)
                    } else {
                        (y, w - 1 - x)
                    };
                    assert((dx as int, dy as int) == v.turn_target(q as int, x as int, y as int));
                    r.set(dx, dy, true);
                }
                assert forall|p: (int, int)|
                    v.turn_source(q as int, p.0, p.1) == (x as int, y as int) implies p
                    == target by {}
                if lit {
                    assert(before.in_bounds(target.0, target.1));
                    assert(r@.on == before.on.insert(target));
                } else {
                    assert(r@ == before);
                }
                assert(r@.on =~= Set::new(
                    |p: (int, int)|
                        v.on.contains(v.turn_source(q as int, p.0, p.1)) && row_major_before(
                            v.turn_source(q as int, p.0, p.1),
                            (x + 1, y as int),
                        ),
                )) by {
                    assert(v.turn_source(q as int, target.0, target.1) == (x as int, y as int));
                }
                x = x + 1;
            }
            assert(r@.on =~= Set::new(
                |p: (int, int)|
                    v.on.contains(v.turn_source(q as int, p.0, p.1)) && v.turn_source(
                        q as int,
                        p.0,
                        p.1,
                    ).1 < y + 1,
            ));
            y = y + 1;
        }
        assert(r@.on =~= v.quarter_turns(steps as int).on);
        r
    }

    /// An independent copy with the same picture.
    pub fn duplicate(&self) -> (r: Bitmap)
        requires
            self.valid(),
        ensures
            r.valid(),
            r@ == self@,
    {
        let data = self.data.clone();
        assert forall|i: int| 0 <= i < data@.len() implies data@[i] == self.data@[i] by {
            assert(cloned(self.data@[i], data@[i]));
        }
        assert(data@ =~= self.data@);
        let r = Bitmap { width: self.width, height: self.height, data };
        assert(r@.on =~= self@.on);
        r
    }

    /// All lit pixels as `(x, y)` positions, in row-major order.
    pub fn iter_on(&self) -> (r: Vec<(u32, u32)>)
        requires
            self.valid(),
        ensures
            r@ == lit_pixels(self@),
            forall|i: int| 0 <= i < r.len() ==> self@.on.contains(as_pixel(#[trigger] r@[i])),
            forall|p: (int, int)| #[trigger]
                self@.on.contains(p) ==> exists|i: int|
                    0 <= i < r.len() && as_pixel(#[trigger] r@[i]) == p,
            forall|i: int, j: int|
                0 <= i < j < r.len() ==> row_major_before(as_pixel(r@[i]), as_pixel(r@[j])),
    {
        let ghost v = self@;
        proof {
            self.lemma_wf();
        }
        let w = self.width;
        let h = self.height;
        let mut r: Vec<(u32, u32)> = Vec::new();
        let mut y: u32 = 0;
        while y < h
            invariant
                self.valid(),
                v == self@,
                v.wf(),
                w == v.width,
                h == v.height,
                y <= h,
                forall|i: int| 0 <= i < r.len() ==> v.on.contains(as_pixel(#[trigger] r@[i])),
                forall|i: int| 0 <= i < r.len() ==> (#[trigger] r@[i]).1 < y,
                forall|p: (int, int)| #[trigger]
                    v.on.contains(p) && p.1 < y ==> exists|i: int|
                        0 <= i < r.len() && as_pixel(#[trigger] r@[i]) == p,
                forall|i: int, j: int|
                    0 <= i < j < r.len() ==> row_major_before(as_pixel(r@[i]), as_pixel(r@[j])),
            decreases h - y,
        {
            let mut x: u32 = 0;
            while x < w
                invariant
                    self.valid(),
                    v == self@,
                    v.wf(),
                    w == v.width,
                    h == v.height,
                    y < h,
                    x <= w,
                    forall|i: int| 0 <= i < r.len() ==> v.on.contains(as_pixel(#[trigger] r@[i])),
                    forall|i: int|
                        0 <= i < r.len() ==> row_major_before(
                            as_pixel(#[trigger] r@[i]),
                            (x as int, y as int),
                        ),
                    forall|p: (int, int)| #[trigger]
                        v.on.contains(p) && row_major_before(p, (x as int, y as int)) ==> exists|
                            i: int,
                        | 0 <= i < r.len() && as_pixel(#[trigger] r@[i]) == p,
                    forall|i: int, j: int|
                        0 <= i < j < r.len() ==> row_major_before(
                            as_pixel(r@[i]),
                            as_pixel(r@[j]),
                        ),
                decreases w - x,
            {
                let ghost old_r = r@;
                if self.get(x, y) {
                    r.push((x, y));
                    assert(as_pixel(r@[r.len() - 1]) == (x as int, y as int));
                    assert forall|p: (int, int)| #[trigger]
                        v.on.contains(p) && row_major_before(p, (x + 1, y as int)) implies exists|
                        i: int,
                    | 0 <= i < r.len() && as_pixel(#[trigger] r@[i]) == p by {
                        if p != (x as int, y as int) {
                            let i = choose|i: int|
                                0 <= i < old_r.len() && as_pixel(#[trigger] old_r[i]) == p;
                            assert(r@[i] == old_r[i]);
                        }
                    }
                }
                x = x + 1;
            }
            y = y + 1;
        }
        proof {
            assert(lists_lit_pixels(v, r@));
            lemma_lit_pixels_unique(v, r@, lit_pixels(v));
        }
        r
    }

    /// The lit pixels as maximal horizontal runs, in row-major order.
    pub fn to_rectangles(&self) -> (r: Vec<Rect>)
        requires
            self.valid(),
        ensures
            r@ == runs(self@),
            runs_of(self@, r@),
    {
        let ghost v = self@;
        proof {
            self.lemma_wf();
        }
        let w = self.width;
        let h = self.height;
        let mut r: Vec<Rect> = Vec::new();
        let mut y: u32 = 0;
        while y < h
            invariant
                self.valid(),
                v == self@,
                v.wf(),
                w == v.width,
                h == v.height,
                y <= h,
                forall|i: int| 0 <= i < r.len() ==> is_run(v.on, #[trigger] r@[i]),
                forall|i: int| 0 <= i < r.len() ==> (#[trigger] r@[i]).y < y,
                forall|p: (int, int)| #[trigger]
                    v.on.contains(p) && p.1 < y ==> exists|i: int|
                        0 <= i < r.len() && rect_covers(#[trigger] r@[i], p),
                forall|i: int, j: int|
                    0 <= i < j < r.len() ==> row_major_before(
                        (r@[i].x as int, r@[i].y as int),
                        (r@[j].x as int, r@[j].y as int),
                    ),
            decreases h - y,
        {
            let mut x: u32 = 0;
            while x < w
                invariant
                    self.valid(),
                    v == self@,
                    v.wf(),
                    w == v.width,
                    h == v.height,
                    y < h,
                    x <= w,
                    0 < x < w ==> !v.on.contains((x - 1, y as int)),
                    forall|i: int| 0 <= i < r.len() ==> is_run(v.on, #[trigger] r@[i]),
                    forall|i: int|
                        0 <= i < r.len() ==> row_major_before(
                            ((#[trigger] r@[i]).x as int, r@[i].y as int),
                            (x as int, y as int),
                        ),
                    forall|p: (int, int)| #[trigger]
                        v.on.contains(p) && row_major_before(p, (x as int, y as int)) ==> exists|
                            i: int,
                        | 0 <= i < r.len() && rect_covers(#[trigger] r@[i], p),
                    forall|i: int, j: int|
                        0 <= i < j < r.len() ==> row_major_before(
                            (r@[i].x as int, r@[i].y as int),
                            (r@[j].x as int, r@[j].y as int),
                        ),
                decreases w - x,
            {
                if self.get(x, y) {
                    let start = x;
                    while x < w && self.get(x, y)
                        invariant
                            self.valid(),
                            v == self@,
                            v.wf(),
                            w == v.width,
                            h == v.height,
                            y < h,
                            start < x <= w || (start == x && v.on.contains((x as int, y as int))),
                            forall|k: int| start <= k < x ==> #[trigger] v.on.contains(
                                (k, y as int),
                            ),
                        decreases w - x,
                    {
                        x = x + 1;
                    }
                    let run = Rect { x: start, y, w: x - start, h: 1 };
                    assert forall|i: int| 0 <= i < run.w implies #[trigger] v.on.contains(
                        (run.x + i, run.y as int),
                    ) by {
                        assert(v.on.contains((start + i, y as int)));
                    }
                    assert(!v.on.contains((run.x + run.w, run.y as int)));
                    let ghost old_r = r@;
                    r.push(run);
                    assert(rect_covers(r@[r.len() - 1], (start as int, y as int)));
                    assert forall|p: (int, int)| #[trigger]
                        v.on.contains(p) && row_major_before(p, (x as int, y as int)) implies exists|
                        i: int,
                    | 0 <= i < r.len() && rect_covers(#[trigger] r@[i], p) by {
                        if p.1 == y && start <= p.0 {
                            assert(rect_covers(r@[r.len() - 1], p));
                        } else {
                            assert(row_major_before(p, (start as int, y as int)));
                            let i = choose|i: int|
                                0 <= i < old_r.len() && rect_covers(#[trigger] old_r[i], p);
                            assert(r@[i] == old_r[i]);
                        }
                    }
                    if x < w {
                        x = x + 1;
                    }
                } else {
                    x = x + 1;
                }
            }
            y = y + 1;
        }
        proof {
            lemma_runs_of_unique(v, r@, runs(v));
        }
        r
    }

    /// The lit pixels grouped into regions: one region holding the maximal
    /// horizontal runs.
    pub fn to_merged_regions(&self) -> (r: Vec<MergedRegion>)
        requires
            self.valid(),
        ensures
            r@.len() == 1,
            r@[0] matches MergedRegion::Rectangles(rs) && rs@ == runs(self@) && runs_of(self@, rs@),
    {
        let rs = self.to_rectangles();
        let mut r: Vec<MergedRegion> = Vec::new();
        r.push(MergedRegion::Rectangles(rs));
        r
    }

    /// Whether pixel `(x, y)` is lit; pixels outside the bitmap are dark.
    pub fn get(&self, x: u32, y: u32) -> (r: bool)
        requires
            self.valid(),
        ensures
            r == self@.on.contains((x as int, y as int)),
    {
        if x < self.width && y < self.height {
            let i = self.index_of(x, y);
            self.data[i] != 0
        } else {
            false
        }
    }
}

} // verus!
