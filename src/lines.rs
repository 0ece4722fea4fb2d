//! Line burning: Bresenham's walk, and the all-touched rule.
use vstd::prelude::*;
use crate::arith::{floor_div, lemma_floor_le};
use crate::edges::{in_px_range, LineEdge};
use crate::emit::{appends_hits, extends_covering, extends_once, lemma_appends_compose, lemma_covering_then_once, lemma_extend_push, lemma_extend_start, lemma_extends_hits};
use crate::raster::RasterInfo;
use crate::writers::{pos, Emission, PixelWriter};

verus! {

/// The writes of `value` to those pixels `(row, col)` of `pixels` that lie in the grid.
pub open spec fn raster_writes(pixels: Seq<(int, int)>, info: RasterInfo, value: i64) -> Seq<Emission>
    decreases pixels.len(),
{
    if pixels.len() == 0 {
        Seq::empty()
    } else {
        let prev = raster_writes(pixels.drop_last(), info, value);
        let p = pixels.last();
        if info.contains(p.0, p.1) {
            prev.push(Emission { row: p.0 as usize, col: p.1 as usize, value })
        } else {
            prev
        }
    }
}

pub proof fn lemma_raster_writes_add(a: Seq<(int, int)>, b: Seq<(int, int)>, info: RasterInfo, value: i64)
    ensures
        raster_writes(a + b, info, value) == raster_writes(a, info, value) + raster_writes(b, info, value),
    decreases b.len(),
{
    if b.len() == 0 {
        assert(a + b =~= a);
        assert(raster_writes(a, info, value) + Seq::<Emission>::empty() =~= raster_writes(a, info, value));
    } else {
        assert((a + b).drop_last() =~= a + b.drop_last());
        assert((a + b).last() == b.last());
        lemma_raster_writes_add(a, b.drop_last(), info, value);
        let p = b.last();
        if info.contains(p.0, p.1) {
            let e = Emission { row: p.0 as usize, col: p.1 as usize, value };
            assert(raster_writes(a, info, value) + raster_writes(b.drop_last(), info, value).push(e) =~= (raster_writes(a, info, value) + raster_writes(b.drop_last(), info, value)).push(e));
        }
    }
}

/// One step of Bresenham's walk: the next position and error term.
pub open spec fn bres_step(x: int, y: int, err: int, dx: int, dy: int, sx: int, sy: int) -> (int, int, int) {
    let e2 = 2 * err;
    let (err1, x1) = if e2 >= dy { (err + dy, x + sx) } else { (err, x) };
    if e2 <= dx { (x1, y + sy, err1 + dx) } else { (x1, y, err1) }
}

/// Pixels `(row, col)` Bresenham's walk visits from `(x, y)` before it stops at `(x1, y1)`
/// (or after `fuel` steps).
pub open spec fn bres_pixels(x: int, y: int, x1: int, y1: int, err: int, dx: int, dy: int, sx: int, sy: int, fuel: nat) -> Seq<(int, int)>
    decreases fuel,
{
    if fuel == 0 || (x == x1 && y == y1) {
        Seq::empty()
    } else {
        let (nx, ny, nerr) = bres_step(x, y, err, dx, dy, sx, sy);
        seq![(y, x)] + bres_pixels(nx, ny, x1, y1, nerr, dx, dy, sx, sy, (fuel - 1) as nat)
    }
}

/// Where the walk stops.
pub open spec fn bres_end(x: int, y: int, x1: int, y1: int, err: int, dx: int, dy: int, sx: int, sy: int, fuel: nat) -> (int, int)
    decreases fuel,
{
    if fuel == 0 || (x == x1 && y == y1) {
        (y, x)
    } else {
        let (nx, ny, nerr) = bres_step(x, y, err, dx, dy, sx, sy);
        bres_end(nx, ny, x1, y1, nerr, dx, dy, sx, sy, (fuel - 1) as nat)
    }
}

pub open spec fn abs(v: int) -> int {
    if v < 0 { -v } else { v }
}

pub open spec fn sign_toward(a: int, b: int) -> int {
    if a < b { 1 } else { -1 }
}

/// Pixels of one segment under the standard rule: the walk between the cells holding its
/// endpoints, plus the final cell when `with_end`.
pub open spec fn segment_pixels(e: LineEdge, info: RasterInfo, with_end: bool) -> Seq<(int, int)> {
    let ix0 = (e.x0 as int) / (info.xres as int);
    let iy0 = (e.y0 as int) / (info.yres as int);
    let ix1 = (e.x1 as int) / (info.xres as int);
    let iy1 = (e.y1 as int) / (info.yres as int);
    let dx = abs(ix1 - ix0);
    let dy = -abs(iy1 - iy0);
    let sx = sign_toward(ix0, ix1);
    let sy = sign_toward(iy0, iy1);
    let fuel = (dx - dy) as nat;
    let walk = bres_pixels(ix0, iy0, ix1, iy1, dx + dy, dx, dy, sx, sy, fuel);
    if with_end {
        walk.push(bres_end(ix0, iy0, ix1, iy1, dx + dy, dx, dy, sx, sy, fuel))
    } else {
        walk
    }
}

/// Pixels of the first `k` segments: a segment's far cell is added only when it ends its
/// polyline and that polyline is not closed, so joints and ring closures are not burnt
/// twice while every open part keeps its end.
pub open spec fn standard_pixels(edges: Seq<LineEdge>, info: RasterInfo, k: int) -> Seq<(int, int)>
    decreases k,
{
    if k <= 0 {
        Seq::empty()
    } else {
        let e = edges[k - 1];
        standard_pixels(edges, info, k - 1) + segment_pixels(e, info, e.is_last && !e.is_closed)
    }
}

pub open spec fn line_edges_ok(edges: Seq<LineEdge>) -> bool {
    forall|i: int|
        0 <= i < edges.len() ==> in_px_range((#[trigger] edges[i]).x0 as int) && in_px_range(edges[i].y0 as int) && in_px_range(
            edges[i].x1 as int,
        ) && in_px_range(edges[i].y1 as int)
}

/// Burns one segment by Bresenham's walk; returns where the walk stopped.
fn walk_segment<W: PixelWriter>(e: &LineEdge, info: &RasterInfo, value: i64, writer: &mut W, background: i64) -> (end: (i64, i64))
    requires
        info.wf(),
        in_px_range(e.x0 as int),
        in_px_range(e.y0 as int),
        in_px_range(e.x1 as int),
        in_px_range(e.y1 as int),
        old(writer).inv(),
        forall|r: int, c: int| info.contains(r, c) ==> #[trigger] old(writer).accepts(r, c, background),
    ensures
        final(writer).inv(),
        forall|r: int, c: int, b: i64| #[trigger] final(writer).accepts(r, c, b) == old(writer).accepts(r, c, b),
        final(writer).frame() == old(writer).frame(),
        final(writer).received() == old(writer).received() + raster_writes(segment_pixels(*e, *info, false), *info, value),
        (end.1 as int, end.0 as int) == segment_pixels(*e, *info, true).last(),
{
    let xres = info.xres as i128;
    let yres = info.yres as i128;
    let ix0 = floor_div(e.x0 as i128, xres) as i64;
    let iy0 = floor_div(e.y0 as i128, yres) as i64;
    let ix1 = floor_div(e.x1 as i128, xres) as i64;
    let iy1 = floor_div(e.y1 as i128, yres) as i64;
    let dx: i64 = if ix1 >= ix0 { ix1 - ix0 } else { ix0 - ix1 };
    let dy: i64 = if iy1 >= iy0 { iy0 - iy1 } else { iy1 - iy0 };
    let sx: i64 = if ix0 < ix1 { 1 } else { -1 };
    let sy: i64 = if iy0 < iy1 { 1 } else { -1 };
    let mut x = ix0;
    let mut y = iy0;
    let mut err: i64 = dx + dy;
    let mut fuel: u64 = (dx - dy) as u64;
    let ghost fuel0 = fuel as nat;
    let ghost all = bres_pixels(ix0 as int, iy0 as int, ix1 as int, iy1 as int, (dx + dy) as int, dx as int, dy as int, sx as int, sy as int, fuel0);
    let ghost end0 = bres_end(ix0 as int, iy0 as int, ix1 as int, iy1 as int, (dx + dy) as int, dx as int, dy as int, sx as int, sy as int, fuel0);
    let ghost mut done: Seq<(int, int)> = Seq::empty();
    let ghost base = writer.received();
    proof {
        assert(done + all =~= all);
        assert(base + raster_writes(done, *info, value) =~= base);
    }
    while fuel > 0 && (x != ix1 || y != iy1)
        invariant
            info.wf(),
            -0x400_0000_0000 <= ix0 <= 0x400_0000_0000,
            -0x400_0000_0000 <= ix1 <= 0x400_0000_0000,
            -0x400_0000_0000 <= iy0 <= 0x400_0000_0000,
            -0x400_0000_0000 <= iy1 <= 0x400_0000_0000,
            0 <= dx <= 0x800_0000_0000,
            -0x800_0000_0000 <= dy <= 0,
            sx == 1 || sx == -1,
            sy == 1 || sy == -1,
            2 * dy <= err <= 2 * dx,
            fuel <= dx - dy,
            abs(x - ix0) + fuel <= dx - dy,
            abs(y - iy0) + fuel <= dx - dy,
            done + bres_pixels(x as int, y as int, ix1 as int, iy1 as int, err as int, dx as int, dy as int, sx as int, sy as int, fuel as nat) == all,
            bres_end(x as int, y as int, ix1 as int, iy1 as int, err as int, dx as int, dy as int, sx as int, sy as int, fuel as nat) == end0,
            writer.inv(),
            forall|r: int, c: int, b: i64| #[trigger] writer.accepts(r, c, b) == old(writer).accepts(r, c, b),
            writer.frame() == old(writer).frame(),
            forall|r: int, c: int| info.contains(r, c) ==> #[trigger] old(writer).accepts(r, c, background),
            writer.received() == base + raster_writes(done, *info, value),
        decreases fuel,
    {
        let ghost p = (y as int, x as int);
        let ghost rest = bres_pixels(x as int, y as int, ix1 as int, iy1 as int, err as int, dx as int, dy as int, sx as int, sy as int, fuel as nat);
        if x >= 0 && x < info.ncols as i64 && y >= 0 && y < info.nrows as i64 {
            writer.write(y as usize, x as usize, value, background);
        }
        proof {
            assert(done.push(p).drop_last() =~= done);
            assert(base + raster_writes(done, *info, value).push(Emission { row: p.0 as usize, col: p.1 as usize, value }) =~= (base + raster_writes(done, *info, value)).push(Emission { row: p.0 as usize, col: p.1 as usize, value }));
        }
        let e2 = 2 * err;
        if e2 >= dy {
            err = err + dy;
            x = x + sx;
        }
        if e2 <= dx {
            err = err + dx;
            y = y + sy;
        }
        fuel = fuel - 1;
        proof {
            let nxt = bres_pixels(x as int, y as int, ix1 as int, iy1 as int, err as int, dx as int, dy as int, sx as int, sy as int, fuel as nat);
            assert(rest == seq![p] + nxt);
            assert(done + rest =~= done.push(p) + nxt);
            done = done.push(p);
        }
    }
    proof {
        assert(bres_pixels(x as int, y as int, ix1 as int, iy1 as int, err as int, dx as int, dy as int, sx as int, sy as int, fuel as nat) =~= Seq::<(int, int)>::empty());
        assert(done =~= all);
    }
    (x, y)
}

/// Burns line segments by Bresenham's walk. The cell holding a segment's far end is
/// written only when the segment ends an open polyline, so joints and ring closures are
/// not burnt twice.
pub fn burn_line_standard<W: PixelWriter>(linedges: &Vec<LineEdge>, info: &RasterInfo, value: i64, writer: &mut W, background: i64)
    requires
        info.wf(),
        line_edges_ok(linedges@),
        old(writer).inv(),
        forall|r: int, c: int| info.contains(r, c) ==> #[trigger] old(writer).accepts(r, c, background),
    ensures
        final(writer).inv(),
        forall|r: int, c: int, b: i64| #[trigger] final(writer).accepts(r, c, b) == old(writer).accepts(r, c, b),
        final(writer).frame() == old(writer).frame(),
        final(writer).received() == old(writer).received() + raster_writes(standard_pixels(linedges@, *info, linedges@.len() as int), *info, value),
{
    let ghost base = writer.received();
    let n = linedges.len();
    let mut idx: usize = 0;
    proof {
        assert(base + raster_writes(Seq::empty(), *info, value) =~= base);
    }
    while idx < n
        invariant
            info.wf(),
            line_edges_ok(linedges@),
            n == linedges@.len(),
            idx <= n,
            writer.inv(),
            forall|r: int, c: int, b: i64| #[trigger] writer.accepts(r, c, b) == old(writer).accepts(r, c, b),
            writer.frame() == old(writer).frame(),
            forall|r: int, c: int| info.contains(r, c) ==> #[trigger] old(writer).accepts(r, c, background),
            writer.received() == base + raster_writes(standard_pixels(linedges@, *info, idx as int), *info, value),
        decreases n - idx,
    {
        let edge = &linedges[idx];
        assert(in_px_range(linedges@[idx as int].x0 as int));
        let ghost mid0 = writer.received();
        let end = walk_segment(edge, info, value, writer, background);
        let with_end = edge.is_last && !edge.is_closed;
        let ghost walk = segment_pixels(*edge, *info, false);
        proof {
            assert(segment_pixels(*edge, *info, true) == walk.push(segment_pixels(*edge, *info, true).last()));
            lemma_raster_writes_add(standard_pixels(linedges@, *info, idx as int), segment_pixels(*edge, *info, with_end), *info, value);
        }
        if with_end && end.0 >= 0 && end.0 < info.ncols as i64 && end.1 >= 0 && end.1 < info.nrows as i64 {
            writer.write(end.1 as usize, end.0 as usize, value, background);
            proof {
                let p = (end.1 as int, end.0 as int);
                assert(segment_pixels(*edge, *info, true).drop_last() =~= walk);
                assert(writer.received() =~= base + raster_writes(standard_pixels(linedges@, *info, idx + 1), *info, value));
            }
        } else {
            proof {
                if with_end {
                    assert(segment_pixels(*edge, *info, true).drop_last() =~= walk);
                }
                assert(writer.received() =~= base + raster_writes(standard_pixels(linedges@, *info, idx + 1), *info, value));
            }
        }
        idx = idx + 1;
    }
}

/// Whether segment `e` passes through the interior of pixel `(r, c)`: some point of the
/// closed segment lies strictly inside the cell. Along each axis the points of the segment
/// strictly inside the cell's slab form an open interval of the segment's parameter; the
/// segment touches the cell when both intervals meet each other and `[0, 1]`. A segment
/// along an axis is first shortened at its far end by a ten-thousandth of a cell, so one
/// that ends just past a cell border does not reach the next cell.
pub open spec fn touches(e: LineEdge, info: RasterInfo, r: int, c: int) -> bool {
    let a1 = c * info.xres;
    let a2 = (c + 1) * info.xres;
    let b1 = r * info.yres;
    let b2 = (r + 1) * info.yres;
    let x0 = e.x0 as int;
    let y0 = e.y0 as int;
    let dx = e.x1 - e.x0;
    let dy = e.y1 - e.y0;
    let xd = abs(dx);
    let yd = abs(dy);
    let xl = if dx > 0 { a1 - x0 } else { x0 - a2 };
    let xh = if dx > 0 { a2 - x0 } else { x0 - a1 };
    let yl = if dy > 0 { b1 - y0 } else { y0 - b2 };
    let yh = if dy > 0 { b2 - y0 } else { y0 - b1 };
    &&& (dx == 0 ==> a1 < x0 < a2)
    &&& (dy == 0 ==> b1 < y0 < b2)
    &&& (dx != 0 ==> xl < xd && 0 < xh)
    &&& (dy != 0 ==> yl < yd && 0 < yh)
    &&& (dx != 0 && dy != 0 ==> xl * yd < yh * xd && yl * xd < xh * yd)
    &&& (dx == 0 && dy != 0 ==> 10000 * ((if e.y0 > e.y1 { y0 } else { e.y1 as int }) - b1) > info.yres)
    &&& (dy == 0 && dx != 0 ==> 10000 * ((if e.x0 > e.x1 { x0 } else { e.x1 as int }) - a1) > info.xres)
}

/// Grid pixels whose interior segment `e` passes through.
pub open spec fn touched_by(e: LineEdge, info: RasterInfo) -> Set<(int, int)> {
    Set::new(|p: (int, int)| info.contains(p.0, p.1) && touches(e, info, p.0, p.1))
}

/// How many of the first `k` segments touch grid pixel `p`.
pub open spec fn touch_count(edges: Seq<LineEdge>, info: RasterInfo, p: (int, int), k: int) -> nat
    decreases k,
{
    if k <= 0 {
        0
    } else {
        touch_count(edges, info, p, k - 1) + if touched_by(edges[k - 1], info).contains(p) { 1nat } else { 0nat }
    }
}

/// Grid pixels touched by the first `k` segments.
pub open spec fn touched_pixels(edges: Seq<LineEdge>, info: RasterInfo, k: int) -> Set<(int, int)>
    decreases k,
{
    if k <= 0 {
        Set::empty()
    } else {
        touched_pixels(edges, info, k - 1).union(touched_by(edges[k - 1], info))
    }
}

/// A touched cell lies within the cell range of the segment's bounding box.
proof fn lemma_touch_box(e: LineEdge, info: RasterInfo, r: int, c: int)
    requires
        info.wf(),
        touches(e, info, r, c),
    ensures
        (if e.x0 < e.x1 { e.x0 as int } else { e.x1 as int }) / (info.xres as int) <= c,
        c <= (if e.x0 < e.x1 { e.x1 as int } else { e.x0 as int }) / (info.xres as int),
        (if e.y0 < e.y1 { e.y0 as int } else { e.y1 as int }) / (info.yres as int) <= r,
        r <= (if e.y0 < e.y1 { e.y1 as int } else { e.y0 as int }) / (info.yres as int),
{
    let xres = info.xres as int;
    let yres = info.yres as int;
    let lox = if e.x0 < e.x1 { e.x0 as int } else { e.x1 as int };
    let hix = if e.x0 < e.x1 { e.x1 as int } else { e.x0 as int };
    let loy = if e.y0 < e.y1 { e.y0 as int } else { e.y1 as int };
    let hiy = if e.y0 < e.y1 { e.y1 as int } else { e.y0 as int };
    lemma_floor_le(lox, xres, c);
    lemma_floor_le(hix, xres, c);
    lemma_floor_le(loy, yres, r);
    lemma_floor_le(hiy, yres, r);
    assert((c + 1) * xres == c * xres + xres) by (nonlinear_arith);
    assert((r + 1) * yres == r * yres + yres) by (nonlinear_arith);
}

/// Computes `touches`.
fn touches_exec(e: &LineEdge, info: &RasterInfo, r: usize, c: usize) -> (t: bool)
    requires
        info.wf(),
        in_px_range(e.x0 as int),
        in_px_range(e.y0 as int),
        in_px_range(e.x1 as int),
        in_px_range(e.y1 as int),
        r < info.nrows,
        c < info.ncols,
    ensures
        t == touches(*e, *info, r as int, c as int),
{
    let xres = info.xres as i128;
    let yres = info.yres as i128;
    proof {
        assert(0 <= c * xres <= 0x100_0000 * 0x100_0000_0000) by (nonlinear_arith)
            requires 0 <= c < 0x100_0000, 0 < xres <= 0x100_0000_0000;
        assert(0 <= r * yres <= 0x100_0000 * 0x100_0000_0000) by (nonlinear_arith)
            requires 0 <= r < 0x100_0000, 0 < yres <= 0x100_0000_0000;
        assert((c + 1) * xres == c * xres + xres) by (nonlinear_arith);
        assert((r + 1) * yres == r * yres + yres) by (nonlinear_arith);
    }
    let a1 = (c as i128) * xres;
    let a2 = a1 + xres;
    let b1 = (r as i128) * yres;
    let b2 = b1 + yres;
    let x0 = e.x0 as i128;
    let y0 = e.y0 as i128;
    let dx = (e.x1 as i128) - x0;
    let dy = (e.y1 as i128) - y0;
    let xd = if dx < 0 { 0 - dx } else { dx };
    let yd = if dy < 0 { 0 - dy } else { dy };
    let xl = if dx > 0 { a1 - x0 } else { x0 - a2 };
    let xh = if dx > 0 { a2 - x0 } else { x0 - a1 };
    let yl = if dy > 0 { b1 - y0 } else { y0 - b2 };
    let yh = if dy > 0 { b2 - y0 } else { y0 - b1 };
    if dx == 0 && !(a1 < x0 && x0 < a2) {
        return false;
    }
    if dy == 0 && !(b1 < y0 && y0 < b2) {
        return false;
    }
    if dx != 0 && !(xl < xd && 0 < xh) {
        return false;
    }
    if dy != 0 && !(yl < yd && 0 < yh) {
        return false;
    }
    if dx == 0 && dy != 0 {
        let far = if e.y0 > e.y1 { y0 } else { e.y1 as i128 };
        return 10000 * (far - b1) > yres;
    }
    if dy == 0 && dx != 0 {
        let far = if e.x0 > e.x1 { x0 } else { e.x1 as i128 };
        return 10000 * (far - a1) > xres;
    }
    if dx != 0 && dy != 0 {
        proof {
            assert(-(0x200_0000_0000_0000_0000 * 0x400_0000_0000) <= xl * yd <= 0x200_0000_0000_0000_0000 * 0x400_0000_0000) by (nonlinear_arith)
                requires -0x200_0000_0000_0000_0000 <= xl <= 0x200_0000_0000_0000_0000, 0 <= yd <= 0x400_0000_0000;
            assert(-(0x200_0000_0000_0000_0000 * 0x400_0000_0000) <= yh * xd <= 0x200_0000_0000_0000_0000 * 0x400_0000_0000) by (nonlinear_arith)
                requires -0x200_0000_0000_0000_0000 <= yh <= 0x200_0000_0000_0000_0000, 0 <= xd <= 0x400_0000_0000;
            assert(-(0x200_0000_0000_0000_0000 * 0x400_0000_0000) <= yl * xd <= 0x200_0000_0000_0000_0000 * 0x400_0000_0000) by (nonlinear_arith)
                requires -0x200_0000_0000_0000_0000 <= yl <= 0x200_0000_0000_0000_0000, 0 <= xd <= 0x400_0000_0000;
            assert(-(0x200_0000_0000_0000_0000 * 0x400_0000_0000) <= xh * yd <= 0x200_0000_0000_0000_0000 * 0x400_0000_0000) by (nonlinear_arith)
                requires -0x200_0000_0000_0000_0000 <= xh <= 0x200_0000_0000_0000_0000, 0 <= yd <= 0x400_0000_0000;
        }
        xl * yd < yh * xd && yl * xd < xh * yd
    } else {
        true
    }
}

/// Cell index range `[lo, hi]` of pixel-space interval `[a, b]` along an axis, clipped to
/// `[0, n)`; `None` when the interval misses the grid.
pub(crate) fn cell_range(a: i64, b: i64, res: i64, n: usize) -> (r: Option<(usize, usize)>)
    requires
        in_px_range(a as int),
        in_px_range(b as int),
        0 < res,
        a <= b,
        n <= crate::raster::DIM_LIMIT,
    ensures
        r.is_none() <==> n == 0 || (b as int / res as int) < 0 || (a as int / res as int) >= n,
        r.is_some() ==> r.unwrap().0 as int == (if a as int / res as int > 0 { a as int / res as int } else { 0 }),
        r.is_some() ==> r.unwrap().1 as int == (if b as int / res as int >= n { n - 1 } else { b as int / res as int }),
        r.is_some() ==> r.unwrap().0 <= r.unwrap().1 < n,
{
    proof {
        vstd::arithmetic::div_mod::lemma_div_is_ordered(a as int, b as int, res as int);
    }
    let lo = floor_div(a as i128, res as i128);
    let hi = floor_div(b as i128, res as i128);
    if n == 0 || hi < 0 || lo >= n as i128 {
        return None;
    }
    let l: usize = if lo > 0 { lo as usize } else { 0 };
    let h: usize = if hi >= n as i128 { n - 1 } else { hi as usize };
    Some((l, h))
}

/// Writes every grid cell whose interior segment `e` passes through, row by row.
fn burn_touched_segment<W: PixelWriter>(
    e: &LineEdge,
    info: &RasterInfo,
    value: i64,
    writer: &mut W,
    background: i64,
)
    requires
        info.wf(),
        in_px_range(e.x0 as int),
        in_px_range(e.y0 as int),
        in_px_range(e.x1 as int),
        in_px_range(e.y1 as int),
        old(writer).inv(),
        forall|r: int, c: int| info.contains(r, c) ==> #[trigger] old(writer).accepts(r, c, background),
    ensures
        final(writer).inv(),
        forall|r: int, c: int, b: i64| #[trigger] final(writer).accepts(r, c, b) == old(writer).accepts(r, c, b),
        final(writer).frame() == old(writer).frame(),
        extends_once(old(writer).received(), final(writer).received(), touched_by(*e, *info), value),
{
    let ghost before = writer.received();
    let ghost s0 = Set::<(int, int)>::empty();
    proof {
        lemma_extend_start(before, value);
    }
    let (lox, hix) = if e.x0 < e.x1 { (e.x0, e.x1) } else { (e.x1, e.x0) };
    let (loy, hiy) = if e.y0 < e.y1 { (e.y0, e.y1) } else { (e.y1, e.y0) };
    let cols = cell_range(lox, hix, info.xres, info.ncols);
    let rows = cell_range(loy, hiy, info.yres, info.nrows);
    match (cols, rows) {
        (Some((c0, c1)), Some((r0, r1))) => {
            let ghost mut s = s0;
            let mut r: usize = r0;
            while r <= r1
                invariant
                    info.wf(),
                    in_px_range(e.x0 as int),
                    in_px_range(e.y0 as int),
                    in_px_range(e.x1 as int),
                    in_px_range(e.y1 as int),
                    c0 <= c1 < info.ncols,
                    r0 <= r1 < info.nrows,
                    r0 <= r <= r1 + 1,
                    writer.inv(),
                    forall|rr: int, c: int, b: i64| #[trigger] writer.accepts(rr, c, b) == old(writer).accepts(rr, c, b),
                    writer.frame() == old(writer).frame(),
                    forall|rr: int, c: int| info.contains(rr, c) ==> #[trigger] old(writer).accepts(rr, c, background),
                    extends_once(before, writer.received(), s, value),
                    s0 == Set::<(int, int)>::empty(),
                    s == s0.union(Set::new(|p: (int, int)| r0 <= p.0 < r && c0 <= p.1 <= c1 && touches(*e, *info, p.0, p.1))),
                decreases r1 + 1 - r,
            {
                let mut c: usize = c0;
                while c <= c1
                    invariant
                        info.wf(),
                        in_px_range(e.x0 as int),
                        in_px_range(e.y0 as int),
                        in_px_range(e.x1 as int),
                        in_px_range(e.y1 as int),
                        c0 <= c1 < info.ncols,
                        r0 <= r <= r1 < info.nrows,
                        c0 <= c <= c1 + 1,
                        writer.inv(),
                        forall|rr: int, cc: int, b: i64| #[trigger] writer.accepts(rr, cc, b) == old(writer).accepts(rr, cc, b),
                        writer.frame() == old(writer).frame(),
                        forall|rr: int, cc: int| info.contains(rr, cc) ==> #[trigger] old(writer).accepts(rr, cc, background),
                        extends_once(before, writer.received(), s, value),
                        s0 == Set::<(int, int)>::empty(),
                    s0 == Set::<(int, int)>::empty(),
                        s == s0.union(Set::new(|p: (int, int)| (r0 <= p.0 < r || (p.0 == r && c0 <= p.1 < c)) && c0 <= p.1 <= c1 && touches(*e, *info, p.0, p.1))),
                    decreases c1 + 1 - c,
                {
                    if touches_exec(e, info, r, c) {
                        let ghost em = Emission { row: r, col: c, value };
                        proof {
                            assert(!s.contains(pos(em)));
                            lemma_extend_push(before, writer.received(), s, value, em);
                        }
                        writer.write(r, c, value, background);
                        proof {
                            s = s.insert(pos(em));
                        }
                    }
                    c = c + 1;
                    proof {
                        assert(s =~= s0.union(Set::new(|p: (int, int)| (r0 <= p.0 < r || (p.0 == r && c0 <= p.1 < c)) && c0 <= p.1 <= c1 && touches(*e, *info, p.0, p.1))));
                    }
                }
                r = r + 1;
                proof {
                    assert(s =~= s0.union(Set::new(|p: (int, int)| r0 <= p.0 < r && c0 <= p.1 <= c1 && touches(*e, *info, p.0, p.1))));
                }
            }
            proof {
                assert forall|p: (int, int)| #[trigger] s.contains(p) == s0.union(touched_by(*e, *info)).contains(p) by {
                    if touches(*e, *info, p.0, p.1) {
                        lemma_touch_box(*e, *info, p.0, p.1);
                    }
                }
                assert(s =~= s0.union(touched_by(*e, *info)));
                assert(s0.union(touched_by(*e, *info)) =~= touched_by(*e, *info));
            }
        },
        _ => {
            proof {
                assert forall|p: (int, int)| !#[trigger] touched_by(*e, *info).contains(p) by {
                    if info.contains(p.0, p.1) && touches(*e, *info, p.0, p.1) {
                        lemma_touch_box(*e, *info, p.0, p.1);
                    }
                }
                assert(touched_by(*e, *info) =~= s0);
            }
        },
    }
}

/// Burns a line's segments under the all-touched rule: for each segment in turn, every
/// grid cell whose interior it passes through is written once.
pub fn burn_line_all_touched<W: PixelWriter>(linedges: &Vec<LineEdge>, info: &RasterInfo, value: i64, writer: &mut W, background: i64)
    requires
        info.wf(),
        line_edges_ok(linedges@),
        old(writer).inv(),
        forall|r: int, c: int| info.contains(r, c) ==> #[trigger] old(writer).accepts(r, c, background),
    ensures
        final(writer).inv(),
        forall|r: int, c: int, b: i64| #[trigger] final(writer).accepts(r, c, b) == old(writer).accepts(r, c, b),
        final(writer).frame() == old(writer).frame(),
        extends_covering(old(writer).received(), final(writer).received(), touched_pixels(linedges@, *info, linedges@.len() as int), value),
        appends_hits(
            old(writer).received(),
            final(writer).received(),
            value,
            |p: (int, int)| touch_count(linedges@, *info, p, linedges@.len() as int),
        ),
{
    let ghost before = writer.received();
    proof {
        lemma_extend_start(before, value);
        assert(before.skip(before.len() as int) =~= Seq::<Emission>::empty());
    }
    let n = linedges.len();
    let mut i: usize = 0;
    while i < n
        invariant
            info.wf(),
            line_edges_ok(linedges@),
            n == linedges@.len(),
            i <= n,
            writer.inv(),
            forall|r: int, c: int, b: i64| #[trigger] writer.accepts(r, c, b) == old(writer).accepts(r, c, b),
            writer.frame() == old(writer).frame(),
            forall|r: int, c: int| info.contains(r, c) ==> #[trigger] old(writer).accepts(r, c, background),
            extends_covering(before, writer.received(), touched_pixels(linedges@, *info, i as int), value),
            appends_hits(before, writer.received(), value, |p: (int, int)| touch_count(linedges@, *info, p, i as int)),
        decreases n - i,
    {
        assert(in_px_range(linedges@[i as int].x0 as int));
        let ghost mid = writer.received();
        let ghost t = touched_by(linedges@[i as int], *info);
        burn_touched_segment(&linedges[i], info, value, writer, background);
        proof {
            lemma_covering_then_once(before, mid, writer.received(), touched_pixels(linedges@, *info, i as int), t, value);
            lemma_extends_hits(mid, writer.received(), t, value);
            let h1 = |p: (int, int)| touch_count(linedges@, *info, p, i as int);
            let h2 = |p: (int, int)| if t.contains(p) { 1nat } else { 0nat };
            lemma_appends_compose(before, mid, writer.received(), value, h1, h2);
        }
        i = i + 1;
    }
}

} // verus!
