//! Edge records in pixel space, and their extraction from geometries.
//!
//! Pixel space here is scaled: a point's x is `x - xmin` and its y is
//! `ymax - y`, both in world units, so column `c` spans `[c * xres, (c + 1) * xres]`
//! and row `r` spans `[r * yres, (r + 1) * yres]`. All values stay integers.
use vstd::prelude::*;
use crate::arith::{floor_div, lemma_floor_le};
use crate::geometry::{coord_ok, coords_ok, Coord, LineString};
use crate::raster::RasterInfo;

verus! {

/// Bound on the magnitude of a pixel-space coordinate.
pub const PX_LIMIT: i64 = 0x200_0000_0000;

/// A point that falls inside the grid, as its pixel indices.
#[derive(Clone, Copy, Debug, PartialEq, Eq, Structural)]
pub struct PointEdge {
    pub x: usize,
    pub y: usize,
}

impl PointEdge {
    pub fn new(x: usize, y: usize) -> (r: PointEdge)
        ensures
            r.x == x,
            r.y == y,
    {
        PointEdge { x, y }
    }
}

/// A non-horizontal polygon edge, oriented from its top vertex `(x0, y0)` to
/// `(x0 + dx, y0 + dy)`, with the rows `[ystart, yend)` whose centre line it crosses.
#[derive(Clone, Copy, Debug, PartialEq, Eq, Structural)]
pub struct PolyEdge {
    pub ystart: u64,
    pub yend: u64,
    pub x0: i64,
    pub y0: i64,
    pub dx: i64,
    pub dy: i64,
}

/// A line segment between two pixel-space points. `is_closed` says whether its polyline is
/// a ring; `is_last` whether it is the final segment of its polyline.
#[derive(Clone, Copy, Debug, PartialEq, Eq, Structural)]
pub struct LineEdge {
    pub x0: i64,
    pub y0: i64,
    pub x1: i64,
    pub y1: i64,
    pub is_closed: bool,
    pub is_last: bool,
}

impl LineEdge {
    pub fn new(x0: i64, y0: i64, x1: i64, y1: i64, is_closed: bool, is_last: bool) -> (r: LineEdge)
        ensures
            r == (LineEdge { x0, y0, x1, y1, is_closed, is_last }),
    {
        LineEdge { x0, y0, x1, y1, is_closed, is_last }
    }
}

pub open spec fn clamp(v: int, lo: int, hi: int) -> int {
    if v < lo { lo } else if v > hi { hi } else { v }
}

/// First row whose centre line lies at or below pixel-space y `ytop` (`ceil(ytop / yres - 1/2)`),
/// at least 0.
pub open spec fn first_row_at_or_below(ytop: int, yres: int) -> int {
    let v = -((yres - 2 * ytop) / (2 * yres));
    if v < 0 { 0 } else { v }
}

/// Whether the centre line of row `r` meets the edge (top end included, bottom end excluded).
pub open spec fn row_active(e: PolyEdge, r: int, yres: int) -> bool {
    2 * e.y0 <= (2 * r + 1) * yres < 2 * (e.y0 + e.dy)
}

/// Whether the edge meets the centre line of row `r` strictly left of the centre of column `c`.
pub open spec fn crosses_left(e: PolyEdge, r: int, c: int, xres: int, yres: int) -> bool {
    2 * e.x0 * e.dy + ((2 * r + 1) * yres - 2 * e.y0) * e.dx < (2 * c + 1) * xres * e.dy
}

pub open spec fn in_px_range(v: int) -> bool {
    -PX_LIMIT <= v <= PX_LIMIT
}

/// The edge joining two pixel-space points with different y, as `PolyEdge::new` builds it.
pub open spec fn poly_edge_of(x0: int, y0: int, x1: int, y1: int, info: RasterInfo) -> PolyEdge {
    let (xt, yt, xb, yb) = if y0 < y1 { (x0, y0, x1, y1) } else { (x1, y1, x0, y0) };
    PolyEdge {
        ystart: first_row_at_or_below(yt, info.yres as int) as u64,
        yend: first_row_at_or_below(yb, info.yres as int) as u64,
        x0: xt as i64,
        y0: yt as i64,
        dx: (xb - xt) as i64,
        dy: (yb - yt) as i64,
    }
}

impl PolyEdge {
    /// The fields are those of `poly_edge_of` for some pixel-space endpoints in range.
    pub open spec fn wf(&self, info: RasterInfo) -> bool {
        &&& in_px_range(self.x0 as int)
        &&& in_px_range(self.y0 as int)
        &&& in_px_range(self.x0 + self.dx)
        &&& in_px_range(self.y0 + self.dy)
        &&& self.dy > 0
        &&& self.ystart == first_row_at_or_below(self.y0 as int, info.yres as int)
        &&& self.yend == first_row_at_or_below(self.y0 + self.dy, info.yres as int)
        &&& self.ystart <= self.yend
    }

    pub fn new(x0: i64, y0: i64, x1: i64, y1: i64, info: &RasterInfo) -> (r: PolyEdge)
        requires
            info.wf(),
            y0 != y1,
            in_px_range(x0 as int),
            in_px_range(y0 as int),
            in_px_range(x1 as int),
            in_px_range(y1 as int),
        ensures
            r == poly_edge_of(x0 as int, y0 as int, x1 as int, y1 as int, *info),
            r.wf(*info),
    {
        let (xt, yt, xb, yb) = if y0 < y1 { (x0, y0, x1, y1) } else { (x1, y1, x0, y0) };
        let ystart = first_row(yt, info);
        let yend = first_row(yb, info);
        proof {
            let d = 2 * info.yres;
            vstd::arithmetic::div_mod::lemma_div_is_ordered(info.yres - 2 * yb, info.yres - 2 * yt, d as int);
        }
        PolyEdge { ystart, yend, x0: xt, y0: yt, dx: xb - xt, dy: yb - yt }
    }
}

/// Computes `first_row_at_or_below`.
fn first_row(y: i64, info: &RasterInfo) -> (r: u64)
    requires
        info.wf(),
        in_px_range(y as int),
    ensures
        r == first_row_at_or_below(y as int, info.yres as int),
{
    let q = floor_div(info.yres as i128 - 2 * (y as i128), 2 * (info.yres as i128));
    let v = 0 - q;
    if v < 0 {
        0
    } else {
        v as u64
    }
}

/// For rows of the grid, `[ystart, yend)` are exactly the rows the edge is active on.
pub proof fn lemma_row_range(e: PolyEdge, info: RasterInfo, r: int)
    requires
        info.wf(),
        e.wf(info),
        0 <= r < info.nrows,
    ensures
        (e.ystart <= r < e.yend) <==> row_active(e, r, info.yres as int),
{
    let yres = info.yres as int;
    let d = 2 * yres;
    let yt = e.y0 as int;
    let yb = e.y0 + e.dy;
    lemma_floor_le(yres - 2 * yt, d, -r);
    lemma_floor_le(yres - 2 * yb, d, -r - 1);
    let t = r * yres;
    assert((-r) * d == -2 * t) by (nonlinear_arith) requires d == 2 * yres, t == r * yres;
    assert((-r - 1 + 1) * d == -2 * t) by (nonlinear_arith) requires d == 2 * yres, t == r * yres;
    assert((2 * r + 1) * yres == 2 * t + yres) by (nonlinear_arith) requires t == r * yres;
    let q1 = (yres - 2 * yt) / d;
    let q2 = (yres - 2 * yb) / d;
    assert((-r <= q1) <==> (2 * yt <= (2 * r + 1) * yres));
    assert((q2 <= -r - 1) <==> ((2 * r + 1) * yres < 2 * yb));
    assert((e.ystart <= r) <==> (-q1 <= r));
    assert((r < e.yend) <==> (r < -q2));
}

/// The pixel `(row, col)` holding world point `p`, if it lies in the grid.
pub open spec fn point_pixel(p: Coord, info: RasterInfo) -> Option<(int, int)> {
    let px = p.x - info.xmin;
    let py = info.ymax - p.y;
    if 0 <= px < info.ncols * info.xres && 0 <= py < info.nrows * info.yres {
        Some((py / (info.yres as int), px / (info.xres as int)))
    } else {
        None
    }
}

/// Pushes the pixel of `point` if it lies in the grid.
pub fn extract_point(edges: &mut Vec<PointEdge>, point: &Coord, info: &RasterInfo)
    requires
        info.wf(),
        coord_ok(*point),
    ensures
        final(edges)@ == match point_pixel(*point, *info) {
            Some(q) => old(edges)@.push(PointEdge { x: q.1 as usize, y: q.0 as usize }),
            None => old(edges)@,
        },
        point_pixel(*point, *info) is Some ==> 0 <= point_pixel(*point, *info).unwrap().0 < info.nrows && 0 <= point_pixel(*point, *info).unwrap().1 < info.ncols,
{
    let px = (point.x as i128) - (info.xmin as i128);
    let py = (info.ymax as i128) - (point.y as i128);
    proof {
        assert(0 <= info.ncols * info.xres <= 0x100_0000 * 0x100_0000_0000) by (nonlinear_arith)
            requires 0 <= info.ncols <= 0x100_0000, 0 < info.xres <= 0x100_0000_0000;
        assert(0 <= info.nrows * info.yres <= 0x100_0000 * 0x100_0000_0000) by (nonlinear_arith)
            requires 0 <= info.nrows <= 0x100_0000, 0 < info.yres <= 0x100_0000_0000;
    }
    let w = (info.ncols as i128) * (info.xres as i128);
    let h = (info.nrows as i128) * (info.yres as i128);
    if 0 <= px && px < w && 0 <= py && py < h {
        let col = floor_div(px, info.xres as i128);
        let row = floor_div(py, info.yres as i128);
        proof {
            lemma_floor_le(px as int, info.xres as int, info.ncols - 1);
            lemma_floor_le(py as int, info.yres as int, info.nrows - 1);
            assert((info.ncols - 1 + 1) * info.xres == info.ncols * info.xres);
            assert((info.nrows - 1 + 1) * info.yres == info.nrows * info.yres);
        }
        edges.push(PointEdge::new(col as usize, row as usize));
    }
}

/// Whether a ring segment between pixel-space y values contributes a polygon edge:
/// it is not horizontal and its y range overlaps the grid.
pub open spec fn keeps_poly_segment(y0: int, y1: int, info: RasterInfo) -> bool {
    let lo = if y0 < y1 { y0 } else { y1 };
    let hi = if y0 < y1 { y1 } else { y0 };
    y0 != y1 && lo < info.nrows * info.yres && hi >= 0
}

/// Polygon edges of the first `k` segments of ring `ring`.
pub open spec fn ring_edges(ring: Seq<Coord>, info: RasterInfo, k: int) -> Seq<PolyEdge>
    decreases k,
{
    if k <= 0 {
        Seq::empty()
    } else {
        let prev = ring_edges(ring, info, k - 1);
        let a = ring[k - 1];
        let b = ring[k];
        let (x0, y0, x1, y1) = (a.x - info.xmin, info.ymax - a.y, b.x - info.xmin, info.ymax - b.y);
        if keeps_poly_segment(y0, y1, info) {
            prev.push(poly_edge_of(x0, y0, x1, y1, info))
        } else {
            prev
        }
    }
}

/// Number of segments of a polyline.
pub open spec fn segments(coords: Seq<Coord>) -> int {
    if coords.len() == 0 { 0 } else { coords.len() - 1 }
}

/// Appends the polygon edges of a ring.
pub fn extract_ring(edges: &mut Vec<PolyEdge>, ring: &LineString, info: &RasterInfo)
    requires
        info.wf(),
        coords_ok(ring.coords@),
        forall|i: int| 0 <= i < old(edges)@.len() ==> (#[trigger] old(edges)@[i]).wf(*info),
    ensures
        final(edges)@ == old(edges)@ + ring_edges(ring.coords@, *info, segments(ring.coords@)),
        forall|i: int| 0 <= i < final(edges)@.len() ==> (#[trigger] final(edges)@[i]).wf(*info),
{
    let n = ring.coords.len();
    if n == 0 {
        assert(old(edges)@ + ring_edges(ring.coords@, *info, 0) =~= old(edges)@);
        return;
    }
    proof {
        assert(0 <= info.nrows * info.yres <= 0x100_0000 * 0x100_0000_0000) by (nonlinear_arith)
            requires 0 <= info.nrows <= 0x100_0000, 0 < info.yres <= 0x100_0000_0000;
    }
    let h = (info.nrows as i128) * (info.yres as i128);
    let ghost base = edges@;
    let mut i: usize = 0;
    proof {
        assert(base + ring_edges(ring.coords@, *info, 0) =~= base);
    }
    while i + 1 < n
        invariant
            info.wf(),
            coords_ok(ring.coords@),
            n == ring.coords@.len(),
            n >= 1,
            i + 1 <= n,
            h == info.nrows * info.yres,
            edges@ == base + ring_edges(ring.coords@, *info, i as int),
            forall|j: int| 0 <= j < edges@.len() ==> (#[trigger] edges@[j]).wf(*info),
        decreases n - i,
    {
        let a = ring.coords[i];
        let b = ring.coords[i + 1];
        assert(coord_ok(ring.coords@[i as int]) && coord_ok(ring.coords@[i + 1]));
        let x0 = a.x - info.xmin;
        let y0 = info.ymax - a.y;
        let x1 = b.x - info.xmin;
        let y1 = info.ymax - b.y;
        let lo = if y0 < y1 { y0 } else { y1 };
        let hi = if y0 < y1 { y1 } else { y0 };
        if y0 != y1 && (lo as i128) < h && hi >= 0 {
            let e = PolyEdge::new(x0, y0, x1, y1, info);
            edges.push(e);
            proof {
                assert(edges@ =~= base + ring_edges(ring.coords@, *info, i + 1));
            }
        } else {
            proof {
                assert(edges@ =~= base + ring_edges(ring.coords@, *info, i + 1));
            }
        }
        i = i + 1;
    }
}

/// Whether a segment between pixel-space points is kept as a line edge: its bounding
/// box meets the grid.
pub open spec fn keeps_line_segment(x0: int, y0: int, x1: int, y1: int, info: RasterInfo) -> bool {
    let lox = if x0 < x1 { x0 } else { x1 };
    let hix = if x0 < x1 { x1 } else { x0 };
    let loy = if y0 < y1 { y0 } else { y1 };
    let hiy = if y0 < y1 { y1 } else { y0 };
    lox < info.ncols * info.xres && hix >= 0 && loy < info.nrows * info.yres && hiy >= 0
}

/// Line edges of the first `k` segments of `coords`, each marked with `closed` and with
/// whether it is the polyline's final segment.
pub open spec fn line_edges(coords: Seq<Coord>, info: RasterInfo, closed: bool, k: int) -> Seq<LineEdge>
    decreases k,
{
    if k <= 0 {
        Seq::empty()
    } else {
        let prev = line_edges(coords, info, closed, k - 1);
        let a = coords[k - 1];
        let b = coords[k];
        let (x0, y0, x1, y1) = (a.x - info.xmin, info.ymax - a.y, b.x - info.xmin, info.ymax - b.y);
        if keeps_line_segment(x0, y0, x1, y1, info) {
            prev.push(LineEdge { x0: x0 as i64, y0: y0 as i64, x1: x1 as i64, y1: y1 as i64, is_closed: closed, is_last: k == segments(coords) })
        } else {
            prev
        }
    }
}

pub open spec fn line_edge_ok(e: LineEdge) -> bool {
    in_px_range(e.x0 as int) && in_px_range(e.y0 as int) && in_px_range(e.x1 as int) && in_px_range(e.y1 as int)
}

/// Appends the line edges of a polyline.
pub fn extract_line(edges: &mut Vec<LineEdge>, line: &LineString, info: &RasterInfo)
    requires
        info.wf(),
        coords_ok(line.coords@),
        forall|i: int| 0 <= i < old(edges)@.len() ==> line_edge_ok(#[trigger] old(edges)@[i]),
    ensures
        final(edges)@ == old(edges)@ + line_edges(line.coords@, *info, line.spec_is_closed(), segments(line.coords@)),
        forall|i: int| 0 <= i < final(edges)@.len() ==> line_edge_ok(#[trigger] final(edges)@[i]),
{
    let n = line.coords.len();
    let closed = line.is_closed();
    if n == 0 {
        assert(old(edges)@ + line_edges(line.coords@, *info, closed, 0) =~= old(edges)@);
        return;
    }
    proof {
        assert(0 <= info.nrows * info.yres <= 0x100_0000 * 0x100_0000_0000) by (nonlinear_arith)
            requires 0 <= info.nrows <= 0x100_0000, 0 < info.yres <= 0x100_0000_0000;
        assert(0 <= info.ncols * info.xres <= 0x100_0000 * 0x100_0000_0000) by (nonlinear_arith)
            requires 0 <= info.ncols <= 0x100_0000, 0 < info.xres <= 0x100_0000_0000;
    }
    let w = (info.ncols as i128) * (info.xres as i128);
    let h = (info.nrows as i128) * (info.yres as i128);
    let ghost base = edges@;
    let mut i: usize = 0;
    proof {
        assert(base + line_edges(line.coords@, *info, closed, 0) =~= base);
    }
    while i + 1 < n
        invariant
            info.wf(),
            coords_ok(line.coords@),
            n == line.coords@.len(),
            n >= 1,
            i + 1 <= n,
            w == info.ncols * info.xres,
            h == info.nrows * info.yres,
            edges@ == base + line_edges(line.coords@, *info, closed, i as int),
            forall|j: int| 0 <= j < edges@.len() ==> line_edge_ok(#[trigger] edges@[j]),
        decreases n - i,
    {
        let a = line.coords[i];
        let b = line.coords[i + 1];
        assert(coord_ok(line.coords@[i as int]) && coord_ok(line.coords@[i + 1]));
        let x0 = a.x - info.xmin;
        let y0 = info.ymax - a.y;
        let x1 = b.x - info.xmin;
        let y1 = info.ymax - b.y;
        let lox = if x0 < x1 { x0 } else { x1 };
        let hix = if x0 < x1 { x1 } else { x0 };
        let loy = if y0 < y1 { y0 } else { y1 };
        let hiy = if y0 < y1 { y1 } else { y0 };
        if (lox as i128) < w && hix >= 0 && (loy as i128) < h && hiy >= 0 {
            edges.push(LineEdge::new(x0, y0, x1, y1, closed, i + 2 == n));
            proof {
                assert(edges@ =~= base + line_edges(line.coords@, *info, closed, i + 1));
            }
        } else {
            proof {
                assert(edges@ =~= base + line_edges(line.coords@, *info, closed, i + 1));
            }
        }
        i = i + 1;
    }
}

} // verus!
