//! Scanline polygon filling under the even-odd rule, at pixel centres.
use vstd::prelude::*;
use crate::arith::{floor_div, lemma_floor_le};
use crate::edges::{clamp, crosses_left, lemma_row_range, row_active, PolyEdge};
use crate::emit::{extends_once, lemma_extend_push, precedes, row_major};
use crate::raster::RasterInfo;
use crate::writers::{pos, Emission, PixelWriter};

verus! {

/// Number of edges whose span includes the centre line of row `r`.
pub open spec fn count_active(edges: Seq<PolyEdge>, r: int, yres: int) -> nat
    decreases edges.len(),
{
    if edges.len() == 0 {
        0
    } else {
        count_active(edges.drop_last(), r, yres) + if row_active(edges.last(), r, yres) { 1nat } else { 0nat }
    }
}

/// Number of those edges that meet the centre line strictly left of the centre of column `c`.
pub open spec fn count_left(edges: Seq<PolyEdge>, r: int, c: int, xres: int, yres: int) -> nat
    decreases edges.len(),
{
    if edges.len() == 0 {
        0
    } else {
        count_left(edges.drop_last(), r, c, xres, yres) + if row_active(edges.last(), r, yres) && crosses_left(
            edges.last(),
            r,
            c,
            xres,
            yres,
        ) {
            1nat
        } else {
            0nat
        }
    }
}

/// Even-odd rule: the pixel centre has an odd number of crossings to its left,
/// and is not right of the last crossing (an unpaired crossing opens nothing).
pub open spec fn scanline_filled(edges: Seq<PolyEdge>, info: RasterInfo, r: int, c: int) -> bool {
    let k = count_left(edges, r, c, info.xres as int, info.yres as int);
    k % 2 == 1 && k < count_active(edges, r, info.yres as int)
}

/// The pixels of the grid that the polygon bounded by `edges` covers.
pub open spec fn fill_pixels(edges: Seq<PolyEdge>, info: RasterInfo) -> Set<(int, int)> {
    Set::new(|p: (int, int)| info.contains(p.0, p.1) && scanline_filled(edges, info, p.0, p.1))
}

/// The pixels of `fill_pixels` on rows before `r`.
pub open spec fn fill_rows_before(edges: Seq<PolyEdge>, info: RasterInfo, r: int) -> Set<(int, int)> {
    Set::new(|p: (int, int)| p.0 < r && info.contains(p.0, p.1) && scanline_filled(edges, info, p.0, p.1))
}

/// First column whose centre lies strictly right of the edge's crossing of row `r`, within `[0, ncols]`.
pub open spec fn col_key(e: PolyEdge, r: int, info: RasterInfo) -> int {
    let xres = info.xres as int;
    let yres = info.yres as int;
    let n = 2 * e.x0 * e.dy + ((2 * r + 1) * yres - 2 * e.y0) * e.dx + xres * e.dy;
    clamp(n / (2 * xres * e.dy), 0, info.ncols as int)
}

/// The keys of the edges active on row `r`, in edge order.
pub open spec fn active_keys(edges: Seq<PolyEdge>, r: int, info: RasterInfo) -> Seq<int>
    decreases edges.len(),
{
    if edges.len() == 0 {
        Seq::empty()
    } else {
        let prev = active_keys(edges.drop_last(), r, info);
        if row_active(edges.last(), r, info.yres as int) {
            prev.push(col_key(edges.last(), r, info))
        } else {
            prev
        }
    }
}

pub open spec fn count_le(ks: Seq<int>, c: int) -> nat
    decreases ks.len(),
{
    if ks.len() == 0 {
        0
    } else {
        count_le(ks.drop_last(), c) + if ks.last() <= c { 1nat } else { 0nat }
    }
}

pub open spec fn count_eq(ks: Seq<int>, c: int) -> nat
    decreases ks.len(),
{
    if ks.len() == 0 {
        0
    } else {
        count_eq(ks.drop_last(), c) + if ks.last() == c { 1nat } else { 0nat }
    }
}

pub open spec fn edges_wf(edges: Seq<PolyEdge>, info: RasterInfo) -> bool {
    forall|i: int| 0 <= i < edges.len() ==> (#[trigger] edges[i]).wf(info)
}

proof fn lemma_key_le(e: PolyEdge, r: int, c: int, info: RasterInfo)
    requires
        info.wf(),
        e.wf(info),
        0 <= c < info.ncols,
    ensures
        (col_key(e, r, info) <= c) <==> crosses_left(e, r, c, info.xres as int, info.yres as int),
{
    let xres = info.xres as int;
    let yres = info.yres as int;
    let m = 2 * e.x0 * e.dy + ((2 * r + 1) * yres - 2 * e.y0) * e.dx;
    let d = 2 * xres * e.dy;
    let xd = xres * e.dy;
    assert(xd > 0) by (nonlinear_arith) requires xres > 0, e.dy > 0, xd == xres * e.dy;
    assert(d == 2 * xd) by (nonlinear_arith) requires d == 2 * xres * e.dy, xd == xres * e.dy;
    lemma_floor_le(m + xd, d, c);
    assert((c + 1) * d == (2 * c + 1) * xd + xd) by (nonlinear_arith) requires d == 2 * xd;
    assert((2 * c + 1) * xres * e.dy == (2 * c + 1) * xd) by (nonlinear_arith) requires xd == xres * e.dy;
}

proof fn lemma_keys_count(edges: Seq<PolyEdge>, r: int, c: int, info: RasterInfo)
    requires
        info.wf(),
        edges_wf(edges, info),
        0 <= c < info.ncols,
    ensures
        count_le(active_keys(edges, r, info), c) == count_left(edges, r, c, info.xres as int, info.yres as int),
        active_keys(edges, r, info).len() == count_active(edges, r, info.yres as int),
    decreases edges.len(),
{
    if edges.len() > 0 {
        let d = edges.drop_last();
        assert forall|i: int| 0 <= i < d.len() implies (#[trigger] d[i]).wf(info) by {
            assert(d[i] == edges[i]);
        }
        lemma_keys_count(d, r, c, info);
        assert(edges.last() == edges[edges.len() - 1]);
        lemma_key_le(edges.last(), r, c, info);
        let ks = active_keys(edges, r, info);
        if row_active(edges.last(), r, info.yres as int) {
            assert(ks.drop_last() =~= active_keys(d, r, info));
        }
    }
}

proof fn lemma_count_step(ks: Seq<int>, c: int)
    ensures
        count_le(ks, c) == count_le(ks, c - 1) + count_eq(ks, c),
    decreases ks.len(),
{
    if ks.len() > 0 {
        lemma_count_step(ks.drop_last(), c);
    }
}

proof fn lemma_count_bounds(ks: Seq<int>, lo: int, hi: int, c: int)
    requires
        forall|j: int| 0 <= j < ks.len() ==> lo <= #[trigger] ks[j] <= hi,
    ensures
        c < lo ==> count_le(ks, c) == 0,
        c >= hi ==> count_le(ks, c) == ks.len(),
        count_le(ks, c) <= ks.len(),
    decreases ks.len(),
{
    if ks.len() > 0 {
        let d = ks.drop_last();
        assert forall|j: int| 0 <= j < d.len() implies lo <= #[trigger] d[j] <= hi by {
            assert(d[j] == ks[j]);
        }
        assert(ks.last() == ks[ks.len() - 1]);
        lemma_count_bounds(d, lo, hi, c);
    }
}

/// Computes `col_key` for an edge active on row `r`.
fn crossing_col(e: &PolyEdge, r: usize, info: &RasterInfo) -> (k: usize)
    requires
        info.wf(),
        e.wf(*info),
        r < info.nrows,
    ensures
        k == col_key(*e, r as int, *info),
        k <= info.ncols,
{
    let xres = info.xres as i128;
    let yres = info.yres as i128;
    let dy = e.dy as i128;
    let dx = e.dx as i128;
    let x0 = e.x0 as i128;
    let y0 = e.y0 as i128;
    let ri = r as i128;
    proof {
        assert(0 < dy <= 0x400_0000_0000);
        assert(-0x400_0000_0000 <= dx <= 0x400_0000_0000);
        assert(0 <= (2 * ri + 1) * yres <= 0x200_0000 * 0x100_0000_0000) by (nonlinear_arith)
            requires 0 <= ri < 0x100_0000, 0 < yres <= 0x100_0000_0000;
        let t = (2 * ri + 1) * yres - 2 * y0;
        assert(-0x400_0000_0000 * 0x200_0000 * 0x200_0000_0000 <= t * dx <= 0x400_0000_0000 * 0x200_0000 * 0x200_0000_0000) by (nonlinear_arith)
            requires -0x200_0000 * 0x200_0000_0000 <= t <= 0x200_0000 * 0x200_0000_0000, -0x400_0000_0000 <= dx <= 0x400_0000_0000;
        assert(-0x200_0000_0000 * 0x400_0000_0000 <= x0 * dy <= 0x200_0000_0000 * 0x400_0000_0000) by (nonlinear_arith)
            requires -0x200_0000_0000 <= x0 <= 0x200_0000_0000, 0 < dy <= 0x400_0000_0000;
        assert(0 < xres * dy <= 0x100_0000_0000 * 0x400_0000_0000) by (nonlinear_arith)
            requires 0 < xres <= 0x100_0000_0000, 0 < dy <= 0x400_0000_0000;
    }
    let t = (2 * ri + 1) * yres - 2 * y0;
    let xd = xres * dy;
    let n = 2 * (x0 * dy) + t * dx + xd;
    let q = floor_div(n, 2 * xd);
    proof {
        assert(2 * (x0 * dy) == 2 * x0 * dy) by (nonlinear_arith);
        assert(2 * xd == 2 * xres * dy) by (nonlinear_arith) requires xd == xres * dy;
    }
    if q < 0 {
        0
    } else if q > info.ncols as i128 {
        info.ncols
    } else {
        q as usize
    }
}

/// Burns row `r` of the polygon: writes each covered pixel of the row once, left to right.
fn burn_scanline<W: PixelWriter>(
    edges: &Vec<PolyEdge>,
    r: usize,
    info: &RasterInfo,
    value: i64,
    writer: &mut W,
    background: i64,
    Ghost(before): Ghost<Seq<Emission>>,
)
    requires
        info.wf(),
        edges_wf(edges@, *info),
        r < info.nrows,
        old(writer).inv(),
        forall|rr: int, c: int| info.contains(rr, c) ==> #[trigger] old(writer).accepts(rr, c, background),
        extends_once(before, old(writer).received(), fill_rows_before(edges@, *info, r as int), value),
        row_major(old(writer).received().skip(before.len() as int)),
        forall|i: int| 0 <= i < old(writer).received().len() - before.len() ==> precedes(#[trigger] old(writer).received().skip(before.len() as int)[i], r as int, 0),
    ensures
        final(writer).inv(),
        forall|rr: int, c: int, b: i64| #[trigger] final(writer).accepts(rr, c, b) == old(writer).accepts(rr, c, b),
        final(writer).frame() == old(writer).frame(),
        extends_once(before, final(writer).received(), fill_rows_before(edges@, *info, r + 1), value),
        row_major(final(writer).received().skip(before.len() as int)),
        forall|i: int| 0 <= i < final(writer).received().len() - before.len() ==> precedes(#[trigger] final(writer).received().skip(before.len() as int)[i], r + 1, 0),
{
    let ghost ks = active_keys(edges@, r as int, *info);
    let mut keys: Vec<usize> = Vec::new();
    let mut kmin: usize = info.ncols;
    let mut kmax: usize = 0;
    proof {
        assert(0 <= (2 * r + 1) * info.yres <= 0x200_0000 * 0x100_0000_0000) by (nonlinear_arith)
            requires 0 <= r < 0x100_0000, 0 < info.yres <= 0x100_0000_0000;
    }
    let yc = (2 * (r as i128) + 1) * (info.yres as i128);
    let mut i: usize = 0;
    while i < edges.len()
        invariant
            yc == (2 * r + 1) * info.yres,
            info.wf(),
            edges_wf(edges@, *info),
            r < info.nrows,
            i <= edges@.len(),
            keys@.len() == active_keys(edges@.take(i as int), r as int, *info).len(),
            forall|j: int| 0 <= j < keys@.len() ==> keys@[j] == #[trigger] active_keys(edges@.take(i as int), r as int, *info)[j],
            forall|j: int| 0 <= j < keys@.len() ==> kmin <= #[trigger] keys@[j] <= kmax,
            kmax <= info.ncols,
        decreases edges@.len() - i,
    {
        let e = &edges[i];
        assert(edges@.take(i + 1).drop_last() =~= edges@.take(i as int));
        assert(edges@.take(i + 1).last() == edges@[i as int]);
        if 2 * (e.y0 as i128) <= yc && yc < 2 * ((e.y0 as i128) + (e.dy as i128)) {
            let k = crossing_col(e, r, info);
            keys.push(k);
            if k < kmin {
                kmin = k;
            }
            if k > kmax {
                kmax = k;
            }
        }
        i = i + 1;
    }
    assert(edges@.take(edges@.len() as int) =~= edges@);
    let n = keys.len();
    proof {
        assert forall|c: int| 0 <= c < info.ncols implies count_le(ks, c) == count_left(edges@, r as int, c, info.xres as int, info.yres as int) by {
            lemma_keys_count(edges@, r as int, c, *info);
        }
        if info.ncols > 0 {
            lemma_keys_count(edges@, r as int, 0, *info);
        } else {
            assert(fill_rows_before(edges@, *info, r + 1) =~= fill_rows_before(edges@, *info, r as int));
        }
    }
    if n == 0 || info.ncols == 0 {
        proof {
            assert forall|p: (int, int)| fill_rows_before(edges@, *info, r + 1).contains(p) implies fill_rows_before(edges@, *info, r as int).contains(p) by {
                if p.0 == r {
                    lemma_keys_count(edges@, r as int, p.1, *info);
                }
            }
            assert(fill_rows_before(edges@, *info, r + 1) =~= fill_rows_before(edges@, *info, r as int));
        }
        return;
    }
    // histogram of keys over [kmin, kmax]
    let width = kmax - kmin + 1;
    let mut hist: Vec<usize> = Vec::new();
    let mut j: usize = 0;
    while j < width
        invariant
            j <= width,
            hist@.len() == j,
            forall|t: int| 0 <= t < j ==> hist@[t] == 0,
        decreases width - j,
    {
        hist.push(0);
        j = j + 1;
    }
    let mut i: usize = 0;
    while i < n
        invariant
            n == keys@.len(),
            n == ks.len(),
            forall|t: int| 0 <= t < n ==> keys@[t] == #[trigger] ks[t],
            forall|t: int| 0 <= t < n ==> kmin <= #[trigger] keys@[t] <= kmax,
            width == kmax - kmin + 1,
            i <= n,
            hist@.len() == width,
            forall|t: int| 0 <= t < width ==> #[trigger] hist@[t] == count_eq(ks.take(i as int), kmin + t),
            forall|t: int| 0 <= t < width ==> hist@[t] <= i,
        decreases n - i,
    {
        let k = keys[i];
        let slot = k - kmin;
        let h = hist[slot];
        hist.set(slot, h + 1);
        proof {
            assert(ks.take(i + 1).drop_last() =~= ks.take(i as int));
            assert(ks.take(i + 1).last() == ks[i as int]);
        }
        i = i + 1;
    }
    assert(ks.take(n as int) =~= ks);
    // sweep the columns, keeping the number of keys at or left of the current column
    let ghost mut s = fill_rows_before(edges@, *info, r as int);
    let mut running: usize = 0;
    let mut c: usize = kmin;
    proof {
        lemma_count_bounds(ks, kmin as int, kmax as int, kmin - 1);
    }
    while c < kmax
        invariant
            info.wf(),
            edges_wf(edges@, *info),
            r < info.nrows,
            kmax <= info.ncols,
            kmin <= c <= kmax,
            n == ks.len(),
            n > 0,
            n == count_active(edges@, r as int, info.yres as int),
            forall|t: int| 0 <= t < n ==> kmin <= #[trigger] ks[t] <= kmax,
            width == kmax - kmin + 1,
            hist@.len() == width,
            forall|t: int| 0 <= t < width ==> #[trigger] hist@[t] == count_eq(ks, kmin + t),
            running == count_le(ks, c - 1),
            forall|cc: int| 0 <= cc < info.ncols ==> #[trigger] count_le(ks, cc) == count_left(edges@, r as int, cc, info.xres as int, info.yres as int),
            writer.inv(),
            forall|rr: int, cc: int, b: i64| #[trigger] writer.accepts(rr, cc, b) == old(writer).accepts(rr, cc, b),
            writer.frame() == old(writer).frame(),
            forall|rr: int, cc: int| info.contains(rr, cc) ==> #[trigger] old(writer).accepts(rr, cc, background),
            extends_once(before, writer.received(), s, value),
            s == Set::new(|p: (int, int)| fill_rows_before(edges@, *info, r as int).contains(p) || (p.0 == r && kmin <= p.1 < c && scanline_filled(edges@, *info, p.0, p.1))),
            row_major(writer.received().skip(before.len() as int)),
            forall|i: int| 0 <= i < writer.received().len() - before.len() ==> precedes(#[trigger] writer.received().skip(before.len() as int)[i], r as int, c as int),
        decreases kmax - c,
    {
        proof {
            lemma_count_step(ks, c as int);
            lemma_count_bounds(ks, kmin as int, kmax as int, c as int);
        }
        running = running + hist[c - kmin];
        if running % 2 == 1 && running < n {
            let ghost e = Emission { row: r, col: c, value };
            let ghost prev = writer.received();
            proof {
                lemma_extend_push(before, writer.received(), s, value, e);
            }
            writer.write(r, c, value, background);
            proof {
                s = s.insert(pos(e));
                let a = prev.skip(before.len() as int);
                assert(writer.received().skip(before.len() as int) =~= a.push(e));
                assert(forall|i: int| 0 <= i < a.len() ==> precedes(#[trigger] a[i], r as int, c as int));
            }
        }
        c = c + 1;
        proof {
            assert(s =~= Set::new(|p: (int, int)| fill_rows_before(edges@, *info, r as int).contains(p) || (p.0 == r && kmin <= p.1 < c && scanline_filled(edges@, *info, p.0, p.1))));
        }
    }
    proof {
        assert forall|p: (int, int)| #[trigger] fill_rows_before(edges@, *info, r + 1).contains(p) == s.contains(p) by {
            if p.0 == r && 0 <= p.1 < info.ncols {
                lemma_count_bounds(ks, kmin as int, kmax as int, p.1);
            }
        }
        assert(fill_rows_before(edges@, *info, r + 1) =~= s);
    }
}

/// Fills the polygon bounded by `polyedges`: every pixel of `fill_pixels` is
/// written once with `value`, row by row from the top, left to right.
pub fn burn_polygon<W: PixelWriter>(polyedges: &Vec<PolyEdge>, info: &RasterInfo, value: i64, writer: &mut W, background: i64)
    requires
        info.wf(),
        edges_wf(polyedges@, *info),
        old(writer).inv(),
        forall|r: int, c: int| info.contains(r, c) ==> #[trigger] old(writer).accepts(r, c, background),
    ensures
        final(writer).inv(),
        forall|r: int, c: int, b: i64| #[trigger] final(writer).accepts(r, c, b) == old(writer).accepts(r, c, b),
        final(writer).frame() == old(writer).frame(),
        extends_once(old(writer).received(), final(writer).received(), fill_pixels(polyedges@, *info), value),
        row_major(final(writer).received().skip(old(writer).received().len() as int)),
{
    let ghost before = writer.received();
    proof {
        crate::emit::lemma_extend_start(before, value);
    }
    // rows outside [row_lo, row_hi) meet no edge
    let mut row_lo: usize = info.nrows;
    let mut row_hi: u64 = 0;
    let mut i: usize = 0;
    while i < polyedges.len()
        invariant
            info.wf(),
            edges_wf(polyedges@, *info),
            i <= polyedges@.len(),
            row_lo <= info.nrows,
            forall|j: int| 0 <= j < i ==> row_lo <= (#[trigger] polyedges@[j]).ystart && polyedges@[j].yend <= row_hi,
        decreases polyedges@.len() - i,
    {
        assert(polyedges@[i as int].wf(*info));
        if polyedges[i].ystart < row_lo as u64 {
            row_lo = polyedges[i].ystart as usize;
        }
        if polyedges[i].yend > row_hi {
            row_hi = polyedges[i].yend;
        }
        i = i + 1;
    }
    proof {
        assert forall|r: int, c: int| 0 <= r < info.nrows && (r < row_lo || r >= row_hi) implies !#[trigger] scanline_filled(polyedges@, *info, r, c) by {
            lemma_no_active(polyedges@, *info, r, row_lo as int, row_hi as int, c);
        }
        assert(fill_rows_before(polyedges@, *info, row_lo as int) =~= Set::empty());
    }
    let row_end: usize = if row_hi < info.nrows as u64 { row_hi as usize } else { info.nrows };
    let mut r: usize = row_lo;
    while r < row_end
        invariant
            info.wf(),
            edges_wf(polyedges@, *info),
            row_lo <= r,
            row_end <= info.nrows,
            row_end <= row_hi,
            row_end == info.nrows || row_end == row_hi,
            r <= row_end || row_end <= row_lo,
            writer.inv(),
            forall|rr: int, c: int, b: i64| #[trigger] writer.accepts(rr, c, b) == old(writer).accepts(rr, c, b),
            writer.frame() == old(writer).frame(),
            forall|rr: int, c: int| info.contains(rr, c) ==> #[trigger] old(writer).accepts(rr, c, background),
            extends_once(before, writer.received(), fill_rows_before(polyedges@, *info, r as int), value),
            row_major(writer.received().skip(before.len() as int)),
            forall|i: int| 0 <= i < writer.received().len() - before.len() ==> precedes(#[trigger] writer.received().skip(before.len() as int)[i], r as int, 0),
        decreases row_end - r,
    {
        burn_scanline(polyedges, r, info, value, writer, background, Ghost(before));
        r = r + 1;
    }
    proof {
        assert forall|p: (int, int)| #[trigger] fill_pixels(polyedges@, *info).contains(p) == fill_rows_before(polyedges@, *info, r as int).contains(p) by {
            if info.contains(p.0, p.1) && p.0 >= r {
                lemma_no_active(polyedges@, *info, p.0, row_lo as int, row_hi as int, p.1);
            }
        }
        assert(fill_pixels(polyedges@, *info) =~= fill_rows_before(polyedges@, *info, r as int));
    }
}

/// A row outside every edge's row range has no active edge, so nothing on it is filled.
proof fn lemma_no_active(edges: Seq<PolyEdge>, info: RasterInfo, r: int, lo: int, hi: int, c: int)
    requires
        info.wf(),
        edges_wf(edges, info),
        0 <= r < info.nrows,
        r < lo || r >= hi,
        forall|j: int| 0 <= j < edges.len() ==> lo <= (#[trigger] edges[j]).ystart && edges[j].yend <= hi,
    ensures
        count_active(edges, r, info.yres as int) == 0,
        !scanline_filled(edges, info, r, c),
    decreases edges.len(),
{
    if edges.len() > 0 {
        let d = edges.drop_last();
        assert forall|j: int| 0 <= j < d.len() implies (#[trigger] d[j]).wf(info) && lo <= d[j].ystart && d[j].yend <= hi by {
            assert(d[j] == edges[j]);
        }
        lemma_no_active(d, info, r, lo, hi, c);
        assert(edges.last() == edges[edges.len() - 1]);
        lemma_row_range(edges.last(), info, r);
    }
    lemma_left_le_active(edges, r, c, info.xres as int, info.yres as int);
}

proof fn lemma_left_le_active(edges: Seq<PolyEdge>, r: int, c: int, xres: int, yres: int)
    ensures
        count_left(edges, r, c, xres, yres) <= count_active(edges, r, yres),
    decreases edges.len(),
{
    if edges.len() > 0 {
        lemma_left_le_active(edges.drop_last(), r, c, xres, yres);
    }
}

} // verus!
