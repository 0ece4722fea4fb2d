//! Properties relating several rasterizations, proved over the contracts' models.
use vstd::prelude::*;
use crate::burn_geometry::{geometry_hits, line_set, lines_line_edges, polygon_set, rings_poly_edges};
use crate::edges::{ring_edges, segments, LineEdge, PolyEdge};
use crate::emit::iterate;
use crate::geometry::{coords_ok, LineString, Polygon};
use crate::lines::touched_pixels;
use crate::pixel_functions::{add64, PixelFunction};
use crate::raster::RasterInfo;
use crate::rusterize_impl::{
    all_rows, band_effect, band_members, band_names_of, dense_result, first_seen, members_of, resolved_field, sparse_result, views,
    DenseArray, SparseArray,
};
use crate::geometry::Geometry;
use crate::writers::{cell, replay};

verus! {

/// Under the all-touched rule a polygon covers every pixel it covers under the standard rule.
pub proof fn lemma_all_touched_superset(rings: Seq<LineString>, info: RasterInfo, p: (int, int))
    ensures
        polygon_set(rings, info, false).contains(p) ==> polygon_set(rings, info, true).contains(p),
{
}

/// Line burning only ever marks pixels of the grid: the parts of a line outside it are dropped.
pub proof fn lemma_lines_stay_in_grid(edges: Seq<LineEdge>, info: RasterInfo, all_touched: bool, p: (int, int))
    ensures
        line_set(edges, info, all_touched).contains(p) ==> info.contains(p.0, p.1),
{
    if !all_touched {
    } else {
        lemma_touched_in_grid(edges, info, edges.len() as int, p);
    }
}

proof fn lemma_touched_in_grid(edges: Seq<LineEdge>, info: RasterInfo, k: int, p: (int, int))
    ensures
        touched_pixels(edges, info, k).contains(p) ==> info.contains(p.0, p.1),
    decreases k,
{
    if k > 0 {
        lemma_touched_in_grid(edges, info, k - 1, p);
    }
}

/// No polygon edge is horizontal: every edge extracted from a ring spans some height.
pub proof fn lemma_no_horizontal_edges(ring: Seq<crate::geometry::Coord>, info: RasterInfo, k: int)
    requires
        0 <= k <= segments(ring),
        coords_ok(ring),
        info.wf(),
    ensures
        forall|i: int| 0 <= i < ring_edges(ring, info, k).len() ==> (#[trigger] ring_edges(ring, info, k)[i]).dy > 0,
    decreases k,
{
    if k > 0 {
        lemma_no_horizontal_edges(ring, info, k - 1);
        let a = ring[k - 1];
        let b = ring[k];
        assert(crate::geometry::coord_ok(a) && crate::geometry::coord_ok(b));
        let prev = ring_edges(ring, info, k - 1);
        assert forall|i: int| 0 <= i < ring_edges(ring, info, k).len() implies (#[trigger] ring_edges(ring, info, k)[i]).dy > 0 by {
            if i < prev.len() {
                assert(ring_edges(ring, info, k)[i] == prev[i]);
            }
        }
    }
}

/// A ring whose vertices all lie above the grid (or all below it) gives no polygon edge.
pub proof fn lemma_ring_off_grid(ring: Seq<crate::geometry::Coord>, info: RasterInfo, k: int)
    requires
        0 <= k <= segments(ring),
        (forall|i: int| 0 <= i < ring.len() ==> #[trigger] ring[i].y > info.ymax) || (forall|i: int|
            0 <= i < ring.len() ==> info.ymax - #[trigger] ring[i].y >= info.nrows * info.yres),
    ensures
        ring_edges(ring, info, k) == Seq::<PolyEdge>::empty(),
    decreases k,
{
    if k > 0 {
        lemma_ring_off_grid(ring, info, k - 1);
        assert(ring[k - 1].y == ring[k - 1].y && ring[k].y == ring[k].y);
    }
}

/// A polygon whose rings all lie above the grid (or all below it) covers nothing under the
/// standard rule, so burning it leaves the raster unchanged.
pub proof fn lemma_polygon_off_grid(poly: Polygon, info: RasterInfo, p: (int, int))
    requires
        forall|j: int|
            0 <= j < poly.rings().len() ==> ((forall|i: int| 0 <= i < (#[trigger] poly.rings()[j]).coords@.len() ==> #[trigger] poly.rings()[j].coords@[i].y > info.ymax)
                || (forall|i: int| 0 <= i < poly.rings()[j].coords@.len() ==> info.ymax - #[trigger] poly.rings()[j].coords@[i].y >= info.nrows * info.yres)),
    ensures
        rings_poly_edges(poly.rings(), info, poly.rings().len() as int) == Seq::<PolyEdge>::empty(),
        !polygon_set(poly.rings(), info, false).contains(p),
{
    lemma_rings_off_grid(poly.rings(), info, poly.rings().len() as int);
    let edges = rings_poly_edges(poly.rings(), info, poly.rings().len() as int);
    assert(crate::fill::count_active(edges, p.0, info.yres as int) == 0);
}

proof fn lemma_rings_off_grid(rings: Seq<LineString>, info: RasterInfo, k: int)
    requires
        0 <= k <= rings.len(),
        forall|j: int|
            0 <= j < rings.len() ==> ((forall|i: int| 0 <= i < (#[trigger] rings[j]).coords@.len() ==> #[trigger] rings[j].coords@[i].y > info.ymax)
                || (forall|i: int| 0 <= i < rings[j].coords@.len() ==> info.ymax - #[trigger] rings[j].coords@[i].y >= info.nrows * info.yres)),
    ensures
        rings_poly_edges(rings, info, k) == Seq::<PolyEdge>::empty(),
    decreases k,
{
    if k > 0 {
        lemma_rings_off_grid(rings, info, k - 1);
        let r = rings[k - 1];
        if segments(r.coords@) > 0 {
            lemma_ring_off_grid(r.coords@, info, segments(r.coords@));
        }
        assert(Seq::<PolyEdge>::empty() + ring_edges(r.coords@, info, segments(r.coords@)) =~= Seq::<PolyEdge>::empty());
    }
}

/// A closed polyline burnt as a line marks the same pixels as the standard-rule outline of
/// the polygon it bounds (its exterior ring, closed, so no end cell is added).
pub proof fn lemma_closed_line_is_ring_outline(poly: Polygon, info: RasterInfo)
    requires
        poly.exterior.spec_is_closed(),
        poly.interiors@.len() == 0,
    ensures
        line_set(lines_line_edges(seq![poly.exterior], info, 1), info, false) == line_set(
            lines_line_edges(poly.rings(), info, poly.rings().len() as int),
            info,
            false,
        ),
{
    assert(poly.rings()[0] == poly.exterior);
    assert(poly.rings().len() == 1);
    assert(seq![poly.exterior][0] == poly.exterior);
    crate::burn_geometry::lemma_lines_prefix_one(seq![poly.exterior], poly.rings(), info);
}

pub proof fn lemma_add64_assoc(a: i64, b: i64, c: i64)
    ensures
        add64(add64(a, b), c) == add64(a, add64(b, c)),
{
}

proof fn lemma_sum_iterate(c: i64, v: i64, h: nat)
    ensures
        iterate(PixelFunction::Sum, 0, c, v, h) == add64(c, iterate(PixelFunction::Sum, 0, 0, v, h)),
    decreases h,
{
    if h > 0 {
        lemma_sum_iterate(c, v, (h - 1) as nat);
        let i0 = iterate(PixelFunction::Sum, 0, 0, v, (h - 1) as nat);
        lemma_add64_assoc(c, i0, v);
    }
}

/// Summing is additive: with background 0, rasterizing `a` then `b` gives, in every cell,
/// the (64-bit two's-complement) sum of rasterizing each alone.
pub proof fn lemma_sum_additive(a: Geometry, va: i64, b: Geometry, vb: i64, info: RasterInfo, at: bool, p: (int, int))
    ensures
        band_effect(PixelFunction::Sum, 0, 0, seq![a, b], seq![Some(va), Some(vb)], seq![true, true], info, at, p, 2) == add64(
            band_effect(PixelFunction::Sum, 0, 0, seq![a], seq![Some(va)], seq![true], info, at, p, 1),
            band_effect(PixelFunction::Sum, 0, 0, seq![b], seq![Some(vb)], seq![true], info, at, p, 1),
        ),
{
    let ha = geometry_hits(a, info, at, p);
    let hb = geometry_hits(b, info, at, p);
    let ea = iterate(PixelFunction::Sum, 0, 0, va, ha);
    let eb = iterate(PixelFunction::Sum, 0, 0, vb, hb);
    lemma_sum_iterate(ea, vb, hb);
    let gs = seq![a, b];
    let fs = seq![Some(va), Some(vb)];
    let ms = seq![true, true];
    assert(gs[1] == b && gs[0] == a);
    assert(fs[0] == Some(va) && fs[1] == Some(vb));
    assert(ms[0] && ms[1]);
    assert(seq![a][0] == a && seq![Some(va)][0] == Some(va) && seq![true][0]);
    assert(seq![b][0] == b && seq![Some(vb)][0] == Some(vb));
    assert(band_effect(PixelFunction::Sum, 0, 0, gs, fs, ms, info, at, p, 0) == 0);
    assert(band_effect(PixelFunction::Sum, 0, 0, gs, fs, ms, info, at, p, 1) == ea);
    assert(band_effect(PixelFunction::Sum, 0, 0, seq![a], seq![Some(va)], seq![true], info, at, p, 0) == 0);
    assert(band_effect(PixelFunction::Sum, 0, 0, seq![a], seq![Some(va)], seq![true], info, at, p, 1) == ea);
    assert(band_effect(PixelFunction::Sum, 0, 0, seq![b], seq![Some(vb)], seq![true], info, at, p, 0) == 0);
    assert(band_effect(PixelFunction::Sum, 0, 0, seq![b], seq![Some(vb)], seq![true], info, at, p, 1) == eb);
}

/// Summing one value `v` over geometries `a` and `b` with background 0 gives, in every
/// cell, the (64-bit two's-complement) sum of the dense rasterizations of each alone.
pub proof fn lemma_dense_sum_additive(
    dab: DenseArray,
    da: DenseArray,
    db: DenseArray,
    a: Geometry,
    b: Geometry,
    info: RasterInfo,
    v: i64,
    at: bool,
    r: int,
    c: int,
)
    requires
        dense_result(dab, seq![a, b], info, PixelFunction::Sum, 0, None, None, v, at),
        dense_result(da, seq![a], info, PixelFunction::Sum, 0, None, None, v, at),
        dense_result(db, seq![b], info, PixelFunction::Sum, 0, None, None, v, at),
        0 <= r < info.nrows,
        0 <= c < info.ncols,
    ensures
        dab.bands@[0]@[cell(r, c, info.ncols as int)] == add64(da.bands@[0]@[cell(r, c, info.ncols as int)], db.bands@[0]@[cell(r, c, info.ncols as int)]),
{
    lemma_sum_additive(a, v, b, v, info, at, (r, c));
    assert(resolved_field(None, v, 2) =~= seq![Some(v), Some(v)]);
    assert(resolved_field(None, v, 1) =~= seq![Some(v)]);
    assert(all_rows(2) =~= seq![true, true]);
    assert(all_rows(1) =~= seq![true]);
    assert(dab.bands@[0]@[cell(r, c, info.ncols as int)] == crate::rusterize_impl::expected_cell(seq![a, b], info, PixelFunction::Sum, 0, None, None, v, at, 0, r, c));
    assert(da.bands@[0]@[cell(r, c, info.ncols as int)] == crate::rusterize_impl::expected_cell(seq![a], info, PixelFunction::Sum, 0, None, None, v, at, 0, r, c));
    assert(db.bands@[0]@[cell(r, c, info.ncols as int)] == crate::rusterize_impl::expected_cell(seq![b], info, PixelFunction::Sum, 0, None, None, v, at, 0, r, c));
}

proof fn lemma_count_iterate(c: i64, v: i64, h: nat)
    requires
        0 <= c,
        c + h <= i64::MAX,
    ensures
        iterate(PixelFunction::Count, 0, c, v, h) == c + h,
    decreases h,
{
    if h > 0 {
        lemma_count_iterate(c, v, (h - 1) as nat);
    }
}

/// How many of the first `k` geometries, selected and with a value, write pixel `p`.
pub open spec fn hit_count(
    geoms: Seq<Geometry>,
    fields: Seq<Option<i64>>,
    member: Seq<bool>,
    info: RasterInfo,
    at: bool,
    p: (int, int),
    k: int,
) -> nat
    decreases k,
{
    if k <= 0 {
        0
    } else {
        hit_count(geoms, fields, member, info, at, p, k - 1) + if member[k - 1] && fields[k - 1] is Some && geometry_hits(
            geoms[k - 1],
            info,
            at,
            p,
        ) > 0 {
            1nat
        } else {
            0nat
        }
    }
}

/// Counting from background 0 over geometries that each cover the pixel at most once
/// (such as disjoint polygons) gives the number of geometries covering it, so a count
/// between 0 and the number of geometries.
pub proof fn lemma_count_bounded(
    geoms: Seq<Geometry>,
    fields: Seq<Option<i64>>,
    member: Seq<bool>,
    info: RasterInfo,
    at: bool,
    p: (int, int),
    k: int,
)
    requires
        0 <= k <= geoms.len(),
        k <= i64::MAX,
        forall|i: int| 0 <= i < k ==> geometry_hits(#[trigger] geoms[i], info, at, p) <= 1,
    ensures
        band_effect(PixelFunction::Count, 0, 0, geoms, fields, member, info, at, p, k) == hit_count(geoms, fields, member, info, at, p, k),
        hit_count(geoms, fields, member, info, at, p, k) <= k,
    decreases k,
{
    if k > 0 {
        lemma_count_bounded(geoms, fields, member, info, at, p, k - 1);
        let prev = band_effect(PixelFunction::Count, 0, 0, geoms, fields, member, info, at, p, k - 1);
        if member[k - 1] && fields[k - 1] is Some {
            lemma_count_iterate(prev, fields[k - 1].unwrap(), geometry_hits(geoms[k - 1], info, at, p));
        }
    }
}

/// A dense count with background 0, over geometries that each cover a pixel at most once,
/// holds in that pixel the number of geometries with a value that cover it.
pub proof fn lemma_dense_count(
    d: DenseArray,
    geoms: Seq<Geometry>,
    info: RasterInfo,
    field: Option<Seq<Option<i64>>>,
    burn_value: i64,
    at: bool,
    r: int,
    c: int,
)
    requires
        dense_result(d, geoms, info, PixelFunction::Count, 0, field, None, burn_value, at),
        0 <= r < info.nrows,
        0 <= c < info.ncols,
        geoms.len() <= i64::MAX,
        forall|i: int| 0 <= i < geoms.len() ==> geometry_hits(#[trigger] geoms[i], info, at, (r, c)) <= 1,
    ensures
        d.bands@.len() == 1,
        d.bands@[0]@[cell(r, c, info.ncols as int)] == hit_count(
            geoms,
            resolved_field(field, burn_value, geoms.len()),
            all_rows(geoms.len()),
            info,
            at,
            (r, c),
            geoms.len() as int,
        ),
        0 <= d.bands@[0]@[cell(r, c, info.ncols as int)] <= geoms.len(),
{
    lemma_count_bounded(geoms, resolved_field(field, burn_value, geoms.len()), all_rows(geoms.len()), info, at, (r, c), geoms.len() as int);
    assert(d.bands@[0]@[cell(r, c, info.ncols as int)] == crate::rusterize_impl::expected_cell(geoms, info, PixelFunction::Count, 0, field, None, burn_value, at, 0, r, c));
}

proof fn lemma_any_iterate(bg: i64, c: i64, v: i64, h: nat)
    ensures
        iterate(PixelFunction::Any, bg, c, v, h) == if h == 0 { c } else { 1 },
    decreases h,
{
    if h > 0 {
        lemma_any_iterate(bg, c, v, (h - 1) as nat);
    }
}

/// Whether some selected geometry among the first `k` with a value writes `p`.
pub open spec fn any_hit(geoms: Seq<Geometry>, fields: Seq<Option<i64>>, member: Seq<bool>, info: RasterInfo, at: bool, p: (int, int), k: int) -> bool
    decreases k,
{
    if k <= 0 {
        false
    } else {
        any_hit(geoms, fields, member, info, at, p, k - 1) || (member[k - 1] && fields[k - 1] is Some && geometry_hits(
            geoms[k - 1],
            info,
            at,
            p,
        ) > 0)
    }
}

proof fn lemma_any_band(bg: i64, c: i64, geoms: Seq<Geometry>, fields: Seq<Option<i64>>, member: Seq<bool>, info: RasterInfo, at: bool, p: (int, int), k: int)
    ensures
        band_effect(PixelFunction::Any, bg, c, geoms, fields, member, info, at, p, k) == if any_hit(geoms, fields, member, info, at, p, k) { 1 } else { c },
    decreases k,
{
    if k > 0 {
        lemma_any_band(bg, c, geoms, fields, member, info, at, p, k - 1);
        if member[k - 1] && fields[k - 1] is Some {
            lemma_any_iterate(bg, band_effect(PixelFunction::Any, bg, c, geoms, fields, member, info, at, p, k - 1), fields[k - 1].unwrap(), geometry_hits(geoms[k - 1], info, at, p));
        }
    }
}

proof fn lemma_any_hit_doubled(geoms: Seq<Geometry>, fields: Seq<Option<i64>>, member: Seq<bool>, info: RasterInfo, at: bool, p: (int, int), k: int)
    requires
        geoms.len() == fields.len(),
        geoms.len() == member.len(),
        0 <= k <= 2 * geoms.len(),
    ensures
        any_hit(geoms + geoms, fields + fields, member + member, info, at, p, k) == if k <= geoms.len() {
            any_hit(geoms, fields, member, info, at, p, k)
        } else {
            any_hit(geoms, fields, member, info, at, p, geoms.len() as int) || any_hit(geoms, fields, member, info, at, p, k - geoms.len())
        },
    decreases k,
{
    if k > 0 {
        lemma_any_hit_doubled(geoms, fields, member, info, at, p, k - 1);
        let n = geoms.len() as int;
        if k <= n {
            assert((geoms + geoms)[k - 1] == geoms[k - 1]);
            assert((fields + fields)[k - 1] == fields[k - 1]);
            assert((member + member)[k - 1] == member[k - 1]);
        } else {
            assert((geoms + geoms)[k - 1] == geoms[k - 1 - n]);
            assert((fields + fields)[k - 1] == fields[k - 1 - n]);
            assert((member + member)[k - 1] == member[k - 1 - n]);
            if k - 1 - n > 0 {
                lemma_any_hit_mono(geoms, fields, member, info, at, p, k - 1 - n, n);
            }
            lemma_any_hit_mono(geoms, fields, member, info, at, p, k - n, n);
        }
    }
}

proof fn lemma_any_hit_mono(geoms: Seq<Geometry>, fields: Seq<Option<i64>>, member: Seq<bool>, info: RasterInfo, at: bool, p: (int, int), j: int, k: int)
    requires
        0 <= j <= k,
    ensures
        any_hit(geoms, fields, member, info, at, p, j) ==> any_hit(geoms, fields, member, info, at, p, k),
    decreases k - j,
{
    if j < k {
        lemma_any_hit_mono(geoms, fields, member, info, at, p, j, k - 1);
    }
}

/// Marking presence is idempotent: rasterizing the geometries twice over gives the same
/// cell as rasterizing them once.
pub proof fn lemma_any_idempotent(
    bg: i64,
    geoms: Seq<Geometry>,
    fields: Seq<Option<i64>>,
    member: Seq<bool>,
    info: RasterInfo,
    at: bool,
    p: (int, int),
)
    requires
        geoms.len() == fields.len(),
        geoms.len() == member.len(),
    ensures
        band_effect(PixelFunction::Any, bg, bg, geoms + geoms, fields + fields, member + member, info, at, p, 2 * (geoms.len() as int))
            == band_effect(PixelFunction::Any, bg, bg, geoms, fields, member, info, at, p, geoms.len() as int),
{
    let n = geoms.len() as int;
    lemma_any_band(bg, bg, geoms + geoms, fields + fields, member + member, info, at, p, 2 * n);
    lemma_any_band(bg, bg, geoms, fields, member, info, at, p, n);
    lemma_any_hit_doubled(geoms, fields, member, info, at, p, 2 * n);
}

/// Sparse output replayed through its reducer equals dense output, band for band and cell
/// for cell, when both come from the same inputs.
pub proof fn lemma_sparse_matches_dense(
    s: SparseArray,
    d: DenseArray,
    geoms: Seq<Geometry>,
    info: RasterInfo,
    pxfn: PixelFunction,
    background: i64,
    field: Option<Seq<Option<i64>>>,
    by: Option<Seq<String>>,
    burn_value: i64,
    at: bool,
)
    requires
        sparse_result(s, geoms, info, pxfn, background, field, by, burn_value, at),
        dense_result(d, geoms, info, pxfn, background, field, by, burn_value, at),
    ensures
        s.lengths@.len() == d.bands@.len(),
        s.band_names@.map_values(|n: String| n@) == d.band_names@.map_values(|n: String| n@),
        forall|b: int, r: int, c: int|
            0 <= b < s.lengths@.len() && 0 <= r < info.nrows && 0 <= c < info.ncols ==> #[trigger] replay(
                s.pxfn,
                s.background,
                s.background,
                s.block(b),
                r,
                c,
            ) == d.bands@[b]@[cell(r, c, info.ncols as int)],
{
    assert forall|b: int, r: int, c: int|
        0 <= b < s.lengths@.len() && 0 <= r < info.nrows && 0 <= c < info.ncols implies #[trigger] replay(
            s.pxfn,
            s.background,
            s.background,
            s.block(b),
            r,
            c,
        ) == d.bands@[b]@[cell(r, c, info.ncols as int)] by {
        assert(d.bands@[b]@[cell(r, c, info.ncols as int)] == crate::rusterize_impl::expected_cell(geoms, info, pxfn, background, field, by, burn_value, at, b, r, c));
    }
}

/// When no edge meets the centre line of row `r`, nothing on that row is filled: a polygon
/// lying within one pixel without crossing its centre line leaves it at background.
pub proof fn lemma_no_centre_crossing(edges: Seq<PolyEdge>, info: RasterInfo, r: int, c: int)
    requires
        forall|i: int| 0 <= i < edges.len() ==> !crate::edges::row_active(#[trigger] edges[i], r, info.yres as int),
    ensures
        !crate::fill::scanline_filled(edges, info, r, c),
    decreases edges.len(),
{
    if edges.len() > 0 {
        let d = edges.drop_last();
        assert forall|i: int| 0 <= i < d.len() implies !crate::edges::row_active(#[trigger] d[i], r, info.yres as int) by {
            assert(d[i] == edges[i]);
        }
        lemma_no_centre_crossing(d, info, r, c);
        assert(edges.last() == edges[edges.len() - 1]);
        assert(crate::fill::count_active(edges, r, info.yres as int) == 0) by {
            lemma_count_active_zero(edges, info, r);
        }
    }
}

proof fn lemma_count_active_zero(edges: Seq<PolyEdge>, info: RasterInfo, r: int)
    requires
        forall|i: int| 0 <= i < edges.len() ==> !crate::edges::row_active(#[trigger] edges[i], r, info.yres as int),
    ensures
        crate::fill::count_active(edges, r, info.yres as int) == 0,
    decreases edges.len(),
{
    if edges.len() > 0 {
        let d = edges.drop_last();
        assert forall|i: int| 0 <= i < d.len() implies !crate::edges::row_active(#[trigger] d[i], r, info.yres as int) by {
            assert(d[i] == edges[i]);
        }
        lemma_count_active_zero(d, info, r);
        assert(edges.last() == edges[edges.len() - 1]);
    }
}

/// A segment starting strictly inside a pixel, more than a ten-thousandth of a cell from
/// its top and left borders, passes through that pixel's interior, so under the
/// all-touched rule a polygon lying within one pixel marks it.
pub proof fn lemma_segment_inside_cell_touches(e: LineEdge, info: RasterInfo, r: int, c: int)
    requires
        info.wf(),
        c * info.xres < e.x0 < (c + 1) * info.xres,
        r * info.yres < e.y0 < (r + 1) * info.yres,
        10000 * (e.x0 - c * info.xres) > info.xres,
        10000 * (e.y0 - r * info.yres) > info.yres,
    ensures
        crate::lines::touches(e, info, r, c),
{
    let a1 = c * info.xres;
    let a2 = (c + 1) * info.xres;
    let b1 = r * info.yres;
    let b2 = (r + 1) * info.yres;
    let x0 = e.x0 as int;
    let y0 = e.y0 as int;
    let dx = e.x1 - e.x0;
    let dy = e.y1 - e.y0;
    let xd = crate::lines::abs(dx);
    let yd = crate::lines::abs(dy);
    let xl = if dx > 0 { a1 - x0 } else { x0 - a2 };
    let xh = if dx > 0 { a2 - x0 } else { x0 - a1 };
    let yl = if dy > 0 { b1 - y0 } else { y0 - b2 };
    let yh = if dy > 0 { b2 - y0 } else { y0 - b1 };
    if dx != 0 && dy != 0 {
        assert(xl * yd < 0) by (nonlinear_arith) requires xl < 0, yd > 0;
        assert(yh * xd > 0) by (nonlinear_arith) requires yh > 0, xd > 0;
        assert(yl * xd < 0) by (nonlinear_arith) requires yl < 0, xd > 0;
        assert(xh * yd > 0) by (nonlinear_arith) requires xh > 0, yd > 0;
    }
}

proof fn lemma_first_seen_contains(s: Seq<Seq<char>>, k: int, i: int)
    requires
        0 <= i < k <= s.len(),
    ensures
        first_seen(s, k).contains(s[i]),
    decreases k,
{
    if i < k - 1 {
        lemma_first_seen_contains(s, k - 1, i);
        let prev = first_seen(s, k - 1);
        let j = choose|j: int| 0 <= j < prev.len() && prev[j] == s[i];
        if !prev.contains(s[k - 1]) {
            assert(prev.push(s[k - 1])[j] == s[i]);
        }
    } else {
        let prev = first_seen(s, k - 1);
        if !prev.contains(s[k - 1]) {
            assert(prev.push(s[k - 1])[prev.len() as int] == s[i]);
        }
    }
}

proof fn lemma_first_seen_prefix(s1: Seq<Seq<char>>, s2: Seq<Seq<char>>, k: int)
    requires
        0 <= k <= s1.len(),
        k <= s2.len(),
        forall|i: int| 0 <= i < k ==> s1[i] == s2[i],
    ensures
        first_seen(s1, k) == first_seen(s2, k),
    decreases k,
{
    if k > 0 {
        lemma_first_seen_prefix(s1, s2, k - 1);
    }
}

/// The distinct keys of a column repeated twice are those of the column.
proof fn lemma_first_seen_doubled(s: Seq<Seq<char>>, j: int)
    requires
        0 <= j <= s.len(),
    ensures
        first_seen(s + s, s.len() + j) == first_seen(s, s.len() as int),
    decreases j,
{
    let n = s.len() as int;
    if j == 0 {
        lemma_first_seen_prefix(s + s, s, n);
    } else {
        lemma_first_seen_doubled(s, j - 1);
        assert((s + s)[n + j - 1] == s[j - 1]);
        lemma_first_seen_contains(s, n, j - 1);
    }
}

/// The field column used for a geometry list given twice over.
pub open spec fn doubled_field(field: Option<Seq<Option<i64>>>) -> Option<Seq<Option<i64>>> {
    match field {
        Some(f) => Some(f + f),
        None => None,
    }
}

/// The group column used for a geometry list given twice over.
pub open spec fn doubled_by(by: Option<Seq<String>>) -> Option<Seq<String>> {
    match by {
        Some(b) => Some(b + b),
        None => None,
    }
}

/// Marking presence is idempotent end to end: a dense rasterization of the geometries
/// given twice over, with their field and group rows given twice over, has the same band
/// names and the same cells as that of the geometries given once.
pub proof fn lemma_dense_any_doubled(
    d1: DenseArray,
    d2: DenseArray,
    geoms: Seq<Geometry>,
    info: RasterInfo,
    bg: i64,
    field: Option<Seq<Option<i64>>>,
    by: Option<Seq<String>>,
    burn_value: i64,
    at: bool,
)
    requires
        field matches Some(f) ==> f.len() == geoms.len(),
        by matches Some(b) ==> b.len() == geoms.len(),
        dense_result(d1, geoms, info, PixelFunction::Any, bg, field, by, burn_value, at),
        dense_result(d2, geoms + geoms, info, PixelFunction::Any, bg, doubled_field(field), doubled_by(by), burn_value, at),
    ensures
        views(d1.band_names@) == views(d2.band_names@),
        d1.bands@.len() == d2.bands@.len(),
        forall|b: int, r: int, c: int|
            0 <= b < d1.bands@.len() && 0 <= r < info.nrows && 0 <= c < info.ncols ==> #[trigger] d1.bands@[b]@[cell(r, c, info.ncols as int)]
                == d2.bands@[b]@[cell(r, c, info.ncols as int)],
{
    let n = geoms.len();
    let f1 = resolved_field(field, burn_value, n);
    let f2 = resolved_field(doubled_field(field), burn_value, 2 * n);
    assert(f2 =~= f1 + f1);
    let m1 = band_members(by, n);
    let m2 = band_members(doubled_by(by), 2 * n);
    match by {
        None => {
            assert(all_rows(2 * n) =~= all_rows(n) + all_rows(n));
        },
        Some(bv) => {
            let v = views(bv);
            assert(views(bv + bv) =~= v + v);
            lemma_first_seen_doubled(v, v.len() as int);
            assert forall|k: int| 0 <= k < m1.len() implies #[trigger] m2[k] == m1[k] + m1[k] by {
                let key = first_seen(v, v.len() as int)[k];
                assert(members_of(v + v, key) =~= members_of(v, key) + members_of(v, key));
            }
        },
    }
    assert(band_names_of(by) == band_names_of(doubled_by(by))) by {
        match by {
            None => {},
            Some(bv) => {
                assert(views(bv + bv) =~= views(bv) + views(bv));
                lemma_first_seen_doubled(views(bv), bv.len() as int);
            },
        }
    }
    assert forall|b: int, r: int, c: int|
        0 <= b < d1.bands@.len() && 0 <= r < info.nrows && 0 <= c < info.ncols implies #[trigger] d1.bands@[b]@[cell(r, c, info.ncols as int)]
            == d2.bands@[b]@[cell(r, c, info.ncols as int)] by {
        assert(m1[b].len() == n) by {
            match by {
                None => {},
                Some(bv) => {
                    assert(m1[b] == members_of(views(bv), first_seen(views(bv), bv.len() as int)[b]));
                },
            }
        }
        lemma_any_idempotent(bg, geoms, f1, m1[b], info, at, (r, c));
        assert(d1.bands@[b]@[cell(r, c, info.ncols as int)] == crate::rusterize_impl::expected_cell(geoms, info, PixelFunction::Any, bg, field, by, burn_value, at, b, r, c));
        assert(d2.bands@[b]@[cell(r, c, info.ncols as int)] == crate::rusterize_impl::expected_cell(geoms + geoms, info, PixelFunction::Any, bg, doubled_field(field), doubled_by(by), burn_value, at, b, r, c));
    }
}

} // verus!
