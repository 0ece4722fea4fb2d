//! Burning one geometry: edge extraction, burner choice, and writer layering.
use vstd::prelude::*;
use crate::cache::PixelCache;
use crate::edges::{extract_line, extract_ring, line_edge_ok, line_edges, point_pixel, ring_edges, segments, LineEdge, PointEdge, PolyEdge};
use crate::emit::{covers, extends_once, lemma_fresh, lemma_once_concat, lemma_unseen};
use crate::fill::{burn_polygon, edges_wf, fill_pixels};
use crate::geometry::{coord_ok, coords_ok, lines_ok, part_ok, polygon_ok, Coord, Geometry, LineString, Part, Polygon};
use crate::lines::{burn_line_all_touched, burn_line_standard, line_edges_ok, raster_writes, standard_pixels, touched_pixels};
use crate::raster::RasterInfo;
use crate::writers::{fresh, pos, positions, unseen, Emission, FillWriter, LineWriter, PixelWriter};

verus! {

/// Pixels of the grid that occur in `pixels`.
pub open spec fn grid_positions(pixels: Seq<(int, int)>, info: RasterInfo) -> Set<(int, int)> {
    Set::new(|p: (int, int)| info.contains(p.0, p.1) && pixels.contains(p))
}

/// Pixels a line burner marks for `edges`.
pub open spec fn line_set(edges: Seq<LineEdge>, info: RasterInfo, all_touched: bool) -> Set<(int, int)> {
    if all_touched {
        touched_pixels(edges, info, edges.len() as int)
    } else {
        grid_positions(standard_pixels(edges, info, edges.len() as int), info)
    }
}

/// Polygon edges of the first `k` rings.
pub open spec fn rings_poly_edges(rings: Seq<LineString>, info: RasterInfo, k: int) -> Seq<PolyEdge>
    decreases k,
{
    if k <= 0 {
        Seq::empty()
    } else {
        rings_poly_edges(rings, info, k - 1) + ring_edges(rings[k - 1].coords@, info, segments(rings[k - 1].coords@))
    }
}

/// Line edges of the first `k` polylines, each with its own closure flag.
pub open spec fn lines_line_edges(lines: Seq<LineString>, info: RasterInfo, k: int) -> Seq<LineEdge>
    decreases k,
{
    if k <= 0 {
        Seq::empty()
    } else {
        let l = lines[k - 1];
        lines_line_edges(lines, info, k - 1) + line_edges(l.coords@, info, l.spec_is_closed(), segments(l.coords@))
    }
}

/// All rings of the first `k` polygons, in order.
pub open spec fn polygons_rings(polys: Seq<Polygon>, k: int) -> Seq<LineString>
    decreases k,
{
    if k <= 0 {
        Seq::empty()
    } else {
        polygons_rings(polys, k - 1) + polys[k - 1].rings()
    }
}

/// Pixels a polygon with these rings covers: the even-odd fill, plus under the
/// all-touched rule every pixel its rings pass through.
pub open spec fn polygon_set(rings: Seq<LineString>, info: RasterInfo, all_touched: bool) -> Set<(int, int)> {
    let fill = fill_pixels(rings_poly_edges(rings, info, rings.len() as int), info);
    if all_touched {
        fill.union(line_set(lines_line_edges(rings, info, rings.len() as int), info, true))
    } else {
        fill
    }
}

/// How many of the first `k` points fall on pixel `p`.
pub open spec fn point_hits(points: Seq<Coord>, info: RasterInfo, p: (int, int), k: int) -> nat
    decreases k,
{
    if k <= 0 {
        0
    } else {
        point_hits(points, info, p, k - 1) + if point_pixel(points[k - 1], info) == Some(p) { 1nat } else { 0nat }
    }
}

pub open spec fn set_hits(s: Set<(int, int)>, p: (int, int)) -> nat {
    if s.contains(p) { 1 } else { 0 }
}

/// The rings of a part's polygons.
pub open spec fn part_rings(p: Part) -> Seq<LineString> {
    match p {
        Part::Polygon(poly) => poly.rings(),
        Part::MultiPolygon(v) => polygons_rings(v@, v@.len() as int),
        _ => Seq::empty(),
    }
}

/// The polylines of a part.
pub open spec fn part_lines(p: Part) -> Seq<LineString> {
    match p {
        Part::LineString(l) => seq![l],
        Part::MultiLineString(v) => v@,
        _ => Seq::empty(),
    }
}

/// How many of a part's points fall on pixel `q`.
pub open spec fn part_point_hits(p: Part, info: RasterInfo, q: (int, int)) -> nat {
    match p {
        Part::Point(c) => point_hits(seq![c], info, q, 1),
        Part::MultiPoint(v) => point_hits(v@, info, q, v@.len() as int),
        _ => 0,
    }
}

/// The polygon rings of the first `k` parts.
pub open spec fn parts_rings(parts: Seq<Part>, k: int) -> Seq<LineString>
    decreases k,
{
    if k <= 0 {
        Seq::empty()
    } else {
        parts_rings(parts, k - 1) + part_rings(parts[k - 1])
    }
}

/// The polylines of the first `k` parts.
pub open spec fn parts_lines(parts: Seq<Part>, k: int) -> Seq<LineString>
    decreases k,
{
    if k <= 0 {
        Seq::empty()
    } else {
        parts_lines(parts, k - 1) + part_lines(parts[k - 1])
    }
}

/// How many points of the first `k` parts fall on pixel `q`.
pub open spec fn parts_point_hits(parts: Seq<Part>, info: RasterInfo, q: (int, int), k: int) -> nat
    decreases k,
{
    if k <= 0 {
        0
    } else {
        parts_point_hits(parts, info, q, k - 1) + part_point_hits(parts[k - 1], info, q)
    }
}

/// Every polygon ring of a geometry, its collection members flattened in order.
pub open spec fn geometry_rings(g: Geometry) -> Seq<LineString> {
    parts_rings(g.parts@, g.parts@.len() as int)
}

/// Every polyline of a geometry, its collection members flattened in order.
pub open spec fn geometry_lines(g: Geometry) -> Seq<LineString> {
    parts_lines(g.parts@, g.parts@.len() as int)
}

/// How many times burning geometry `g` writes pixel `p`: once if its polygons (all
/// rings together, under the even-odd rule) cover it, once if its lines mark it, and
/// once per point of it that falls there.
pub open spec fn geometry_hits(g: Geometry, info: RasterInfo, all_touched: bool, p: (int, int)) -> nat {
    set_hits(polygon_set(geometry_rings(g), info, all_touched), p) + set_hits(
        line_set(lines_line_edges(geometry_lines(g), info, geometry_lines(g).len() as int), info, all_touched),
        p,
    ) + parts_point_hits(g.parts@, info, p, g.parts@.len() as int)
}

/// One write of `value` per point edge, in order.
pub open spec fn point_writes(pes: Seq<PointEdge>, value: i64) -> Seq<Emission> {
    Seq::new(pes.len(), |j: int| Emission { row: pes[j].y, col: pes[j].x, value })
}

/// Writes each point's pixel.
pub fn burn_point<W: PixelWriter>(pointedges: &Vec<PointEdge>, value: i64, writer: &mut W, background: i64)
    requires
        old(writer).inv(),
        forall|i: int| 0 <= i < pointedges@.len() ==> #[trigger] old(writer).accepts(pointedges@[i].y as int, pointedges@[i].x as int, background),
    ensures
        final(writer).inv(),
        forall|r: int, c: int, b: i64| #[trigger] final(writer).accepts(r, c, b) == old(writer).accepts(r, c, b),
        final(writer).frame() == old(writer).frame(),
        final(writer).received() == old(writer).received() + point_writes(pointedges@, value),
{
    let ghost base = writer.received();
    let mut i: usize = 0;
    assert(base + point_writes(pointedges@.take(0), value) =~= base);
    while i < pointedges.len()
        invariant
            i <= pointedges@.len(),
            writer.inv(),
            forall|r: int, c: int, b: i64| #[trigger] writer.accepts(r, c, b) == old(writer).accepts(r, c, b),
            writer.frame() == old(writer).frame(),
            forall|j: int| 0 <= j < pointedges@.len() ==> #[trigger] old(writer).accepts(pointedges@[j].y as int, pointedges@[j].x as int, background),
            writer.received() == base + point_writes(pointedges@.take(i as int), value),
        decreases pointedges@.len() - i,
    {
        let pe = pointedges[i];
        assert(old(writer).accepts(pointedges@[i as int].y as int, pointedges@[i as int].x as int, background));
        writer.write(pe.y, pe.x, value, background);
        i = i + 1;
        assert(writer.received() =~= base + point_writes(pointedges@.take(i as int), value));
    }
    assert(pointedges@.take(pointedges@.len() as int) =~= pointedges@);
}

/// A run of raster writes carries `v` everywhere and marks exactly the grid pixels of `pixels`.
proof fn lemma_raster_writes_cover(pixels: Seq<(int, int)>, info: RasterInfo, v: i64)
    ensures
        covers(raster_writes(pixels, info, v), grid_positions(pixels, info), v),
    decreases pixels.len(),
{
    if pixels.len() == 0 {
        assert(grid_positions(pixels, info) =~= Set::empty());
    } else {
        let d = pixels.drop_last();
        let q = pixels.last();
        lemma_raster_writes_cover(d, info, v);
        let prev = raster_writes(d, info, v);
        let rw = raster_writes(pixels, info, v);
        assert forall|i: int| 0 <= i < rw.len() implies (#[trigger] rw[i]).value == v by {
            if i < prev.len() {
                assert(rw[i] == prev[i]);
            }
        }
        assert forall|p: (int, int)| #[trigger] grid_positions(pixels, info).contains(p) == (grid_positions(d, info).contains(p) || (
        info.contains(q.0, q.1) && p == q)) by {
            if pixels.contains(p) && p != q {
                let i = choose|i: int| 0 <= i < pixels.len() && pixels[i] == p;
                assert(d[i] == p);
            }
            if d.contains(p) {
                let i = choose|i: int| 0 <= i < d.len() && d[i] == p;
                assert(pixels[i] == p);
            }
            assert(pixels[pixels.len() - 1] == q);
        }
        if info.contains(q.0, q.1) {
            let e = Emission { row: q.0 as usize, col: q.1 as usize, value: v };
            assert(rw.drop_last() =~= prev);
            assert(pos(e) == q);
            assert(grid_positions(pixels, info) =~= grid_positions(d, info).insert(q));
        } else {
            assert(grid_positions(pixels, info) =~= grid_positions(d, info));
        }
    }
}

/// A cache whose bitset window spans the cells of the line edges' bounding box.
fn line_cache(linedges: &Vec<LineEdge>, info: &RasterInfo) -> (c: PixelCache)
    requires
        info.wf(),
        line_edges_ok(linedges@),
    ensures
        c.inv(),
        c.contents() == Set::<(int, int)>::empty(),
{
    if linedges.len() == 0 {
        return PixelCache::new(0, 0, 0, 0);
    }
    let mut lox = linedges[0].x0;
    let mut hix = linedges[0].x0;
    let mut loy = linedges[0].y0;
    let mut hiy = linedges[0].y0;
    let mut i: usize = 0;
    while i < linedges.len()
        invariant
            line_edges_ok(linedges@),
            i <= linedges@.len(),
            crate::edges::in_px_range(lox as int),
            crate::edges::in_px_range(hix as int),
            crate::edges::in_px_range(loy as int),
            crate::edges::in_px_range(hiy as int),
            lox <= hix,
            loy <= hiy,
        decreases linedges@.len() - i,
    {
        let e = linedges[i];
        assert(crate::edges::in_px_range(linedges@[i as int].x0 as int));
        if e.x0 < lox { lox = e.x0; }
        if e.x1 < lox { lox = e.x1; }
        if e.x0 > hix { hix = e.x0; }
        if e.x1 > hix { hix = e.x1; }
        if e.y0 < loy { loy = e.y0; }
        if e.y1 < loy { loy = e.y1; }
        if e.y0 > hiy { hiy = e.y0; }
        if e.y1 > hiy { hiy = e.y1; }
        i = i + 1;
    }
    match (crate::lines::cell_range(lox, hix, info.xres, info.ncols), crate::lines::cell_range(loy, hiy, info.yres, info.nrows)) {
        (Some((c0, c1)), Some((r0, r1))) => {
            let w = c1 - c0 + 1;
            let h = r1 - r0 + 1;
            proof {
                assert(w * h <= 0x100_0000 * 0x100_0000) by (nonlinear_arith)
                    requires 0 < w <= 0x100_0000, 0 < h <= 0x100_0000;
            }
            if (w as u64) * (h as u64) <= usize::MAX as u64 {
                PixelCache::new(c0, r0, w, h)
            } else {
                PixelCache::new(0, 0, 0, 0)
            }
        },
        _ => PixelCache::new(0, 0, 0, 0),
    }
}

/// Burns line edges through a de-duplicating writer: each marked pixel is written once.
pub(crate) fn burn_line_edges<W: PixelWriter>(linedges: &Vec<LineEdge>, info: &RasterInfo, value: i64, writer: W, background: i64, all_touched: bool) -> (w: W)
    requires
        info.wf(),
        line_edges_ok(linedges@),
        writer.inv(),
        forall|r: int, c: int| info.contains(r, c) ==> #[trigger] writer.accepts(r, c, background),
    ensures
        w.inv(),
        forall|r: int, c: int, b: i64| #[trigger] w.accepts(r, c, b) == writer.accepts(r, c, b),
        w.frame() == writer.frame(),
        extends_once(writer.received(), w.received(), line_set(linedges@, *info, all_touched), value),
{
    let ghost base = writer.received();
    let ghost frame0 = writer.frame();
    let cache = line_cache(linedges, info);
    let mut lw = LineWriter::new(writer, cache);
    let ghost lframe = lw.frame();
    if all_touched {
        burn_line_all_touched(linedges, info, value, &mut lw, background);
    } else {
        burn_line_standard(linedges, info, value, &mut lw, background);
    }
    let ghost l = lw.received();
    proof {
        assert(l.skip(0) =~= l);
        if !all_touched {
            assert(l =~= raster_writes(standard_pixels(linedges@, *info, linedges@.len() as int), *info, value));
            lemma_raster_writes_cover(standard_pixels(linedges@, *info, linedges@.len() as int), *info, value);
        }
        assert(Seq::<Emission>::empty().len() == 0);
    }
    let ghost lw_end = lw;
    let (w, _cache) = lw.into_parts();
    proof {
        crate::writers::lemma_layered_injective(w.frame(), lw_end.base_log(), lw_end.base_seen(), frame0, base, Set::empty());
        lemma_fresh(l, Set::empty(), value);
        assert(positions(l).difference(Set::empty()) =~= positions(l));
        let added = fresh(l, Set::empty());
        assert(w.received().skip(base.len() as int) =~= added);
        assert(w.received().subrange(0, base.len() as int) =~= base);
    }
    w
}

/// Fills polygon edges; under the all-touched rule first burns the rings' line edges
/// through a cache, then fills only pixels the rings did not reach.
pub(crate) fn burn_polygon_edges<W: PixelWriter>(
    polyedges: &Vec<PolyEdge>,
    linedges: &Vec<LineEdge>,
    info: &RasterInfo,
    value: i64,
    writer: W,
    background: i64,
    all_touched: bool,
) -> (w: W)
    requires
        info.wf(),
        edges_wf(polyedges@, *info),
        line_edges_ok(linedges@),
        writer.inv(),
        forall|r: int, c: int| info.contains(r, c) ==> #[trigger] writer.accepts(r, c, background),
    ensures
        w.inv(),
        forall|r: int, c: int, b: i64| #[trigger] w.accepts(r, c, b) == writer.accepts(r, c, b),
        w.frame() == writer.frame(),
        extends_once(
            writer.received(),
            w.received(),
            if all_touched {
                fill_pixels(polyedges@, *info).union(line_set(linedges@, *info, true))
            } else {
                fill_pixels(polyedges@, *info)
            },
            value,
        ),
        all_touched ==> exists|m: int|
            writer.received().len() <= m <= w.received().len() && extends_once(
                writer.received(),
                #[trigger] w.received().subrange(0, m),
                line_set(linedges@, *info, true),
                value,
            ) && extends_once(
                w.received().subrange(0, m),
                w.received(),
                fill_pixels(polyedges@, *info).difference(line_set(linedges@, *info, true)),
                value,
            ),
{
    let ghost base = writer.received();
    if !all_touched {
        let mut w = writer;
        burn_polygon(polyedges, info, value, &mut w, background);
        return w;
    }
    let ghost frame0 = writer.frame();
    let cache = line_cache(linedges, info);
    let mut lw = LineWriter::new(writer, cache);
    burn_line_all_touched(linedges, info, value, &mut lw, background);
    let ghost l = lw.received();
    let ghost lw_end = lw;
    let (w1, cache1) = lw.into_parts();
    proof {
        crate::writers::lemma_layered_injective(w1.frame(), lw_end.base_log(), lw_end.base_seen(), frame0, base, Set::empty());
    }
    let ghost mid = w1.received();
    let ghost seen1 = cache1.contents();
    let ghost frame1 = w1.frame();
    let ghost s_line = line_set(linedges@, *info, true);
    let mut fw = FillWriter::new(w1, cache1);
    burn_polygon(polyedges, info, value, &mut fw, background);
    let ghost f = fw.received();
    let ghost fw_end = fw;
    let (w2, cache2) = fw.into_parts();
    proof {
        crate::writers::lemma_layered_injective(w2.frame(), fw_end.base_log(), cache2.contents(), frame1, mid, seen1);
        assert(Set::<(int, int)>::empty().union(positions(l)) =~= positions(l));
        let s_fill = fill_pixels(polyedges@, *info);
        assert(l.skip(0) =~= l);
        assert(f.skip(0) =~= f);
        lemma_fresh(l, Set::empty(), value);
        assert(positions(l).difference(Set::empty()) =~= positions(l));
        assert(Set::<(int, int)>::empty().union(positions(l)) =~= positions(l));
        let a = fresh(l, Set::empty());
        lemma_unseen(f, s_fill, value, s_line);
        let b = unseen(f, s_line);
        assert(s_line.disjoint(s_fill.difference(s_line)));
        lemma_once_concat(a, s_line, b, s_fill.difference(s_line), value);
        assert(s_line.union(s_fill.difference(s_line)) =~= s_fill.union(s_line));
        assert(w2.received() =~= base + (a + b));
        assert(w2.received().skip(base.len() as int) =~= a + b);
        assert(w2.received().subrange(0, base.len() as int) =~= base);
        let m = mid.len() as int;
        assert(mid =~= base + a);
        assert(w2.received().subrange(0, m) =~= mid);
        assert(mid.skip(base.len() as int) =~= a);
        assert(mid.subrange(0, base.len() as int) =~= base);
        assert(w2.received().skip(m) =~= b);
        assert(w2.received().subrange(0, m).subrange(0, m) =~= mid);
    }
    w2
}

proof fn lemma_rings_prefix(s1: Seq<LineString>, s2: Seq<LineString>, info: RasterInfo, k: int)
    requires
        0 <= k <= s1.len(),
        k <= s2.len(),
        forall|i: int| 0 <= i < k ==> s1[i] == s2[i],
    ensures
        rings_poly_edges(s1, info, k) == rings_poly_edges(s2, info, k),
        lines_line_edges(s1, info, k) == lines_line_edges(s2, info, k),
    decreases k,
{
    if k > 0 {
        lemma_rings_prefix(s1, s2, info, k - 1);
        assert(s1[k - 1] == s2[k - 1]);
    }
}

proof fn lemma_rings_concat(a: Seq<LineString>, b: Seq<LineString>, info: RasterInfo)
    ensures
        rings_poly_edges(a + b, info, (a + b).len() as int) == rings_poly_edges(a, info, a.len() as int) + rings_poly_edges(b, info, b.len() as int),
        lines_line_edges(a + b, info, (a + b).len() as int) == lines_line_edges(a, info, a.len() as int) + lines_line_edges(b, info, b.len() as int),
    decreases b.len(),
{
    if b.len() == 0 {
        assert(a + b =~= a);
        assert(rings_poly_edges(a, info, a.len() as int) + Seq::<PolyEdge>::empty() =~= rings_poly_edges(a, info, a.len() as int));
        assert(lines_line_edges(a, info, a.len() as int) + Seq::<LineEdge>::empty() =~= lines_line_edges(a, info, a.len() as int));
    } else {
        let bd = b.drop_last();
        lemma_rings_concat(a, bd, info);
        lemma_rings_prefix(a + b, a + bd, info, (a + bd).len() as int);
        lemma_rings_prefix(b, bd, info, bd.len() as int);
        assert((a + b)[(a + b).len() - 1] == b[b.len() - 1]);
        assert(rings_poly_edges(a, info, a.len() as int) + rings_poly_edges(bd, info, bd.len() as int) + ring_edges(b[b.len() - 1].coords@, info, segments(b[b.len() - 1].coords@))
            =~= rings_poly_edges(a, info, a.len() as int) + (rings_poly_edges(bd, info, bd.len() as int) + ring_edges(b[b.len() - 1].coords@, info, segments(b[b.len() - 1].coords@))));
        let l = b[b.len() - 1];
        assert(lines_line_edges(a, info, a.len() as int) + lines_line_edges(bd, info, bd.len() as int) + line_edges(l.coords@, info, l.spec_is_closed(), segments(l.coords@))
            =~= lines_line_edges(a, info, a.len() as int) + (lines_line_edges(bd, info, bd.len() as int) + line_edges(l.coords@, info, l.spec_is_closed(), segments(l.coords@))));
    }
}

/// Appends the polygon edges of all rings of `poly`, and with `with_lines` their line edges.
fn extract_polygon(polyedges: &mut Vec<PolyEdge>, linedges: &mut Vec<LineEdge>, poly: &Polygon, info: &RasterInfo, with_lines: bool)
    requires
        info.wf(),
        polygon_ok(*poly),
        edges_wf(old(polyedges)@, *info),
        line_edges_ok(old(linedges)@),
    ensures
        final(polyedges)@ == old(polyedges)@ + rings_poly_edges(poly.rings(), *info, poly.rings().len() as int),
        final(linedges)@ == old(linedges)@ + if with_lines { lines_line_edges(poly.rings(), *info, poly.rings().len() as int) } else { Seq::empty() },
        edges_wf(final(polyedges)@, *info),
        line_edges_ok(final(linedges)@),
{
    let ghost rings = poly.rings();
    let ghost pbase = polyedges@;
    let ghost lbase = linedges@;
    proof {
        assert(pbase + rings_poly_edges(rings, *info, 0) =~= pbase);
        assert(lbase + lines_line_edges(rings, *info, 0) =~= lbase);
        assert(lbase + Seq::<LineEdge>::empty() =~= lbase);
        assert(rings[0] == poly.exterior);
        assert(coords_ok(rings[0].coords@));
    }
    extract_ring(polyedges, &poly.exterior, info);
    if with_lines {
        extract_line(linedges, &poly.exterior, info);
    }
    proof {
        assert(polyedges@ =~= pbase + rings_poly_edges(rings, *info, 1));
        if with_lines {
            assert(linedges@ =~= lbase + lines_line_edges(rings, *info, 1));
        }
    }
    let mut j: usize = 0;
    while j < poly.interiors.len()
        invariant
            info.wf(),
            polygon_ok(*poly),
            rings == poly.rings(),
            rings.len() == poly.interiors@.len() + 1,
            j <= poly.interiors@.len(),
            polyedges@ == pbase + rings_poly_edges(rings, *info, j + 1),
            linedges@ == lbase + if with_lines { lines_line_edges(rings, *info, j + 1) } else { Seq::empty() },
            edges_wf(polyedges@, *info),
            line_edges_ok(linedges@),
        decreases poly.interiors@.len() - j,
    {
        let ring = &poly.interiors[j];
        assert(*ring == rings[j + 1]);
        assert(coords_ok(rings[j + 1].coords@));
        extract_ring(polyedges, ring, info);
        proof {
            assert(polyedges@ =~= pbase + rings_poly_edges(rings, *info, j + 2));
        }
        if with_lines {
            extract_line(linedges, ring, info);
            proof {
                assert(linedges@ =~= lbase + lines_line_edges(rings, *info, j + 2));
            }
        }
        j = j + 1;
    }
}

/// Appends the line edges of each polyline.
fn extract_lines(linedges: &mut Vec<LineEdge>, lines: &Vec<LineString>, info: &RasterInfo)
    requires
        info.wf(),
        lines_ok(lines@),
        line_edges_ok(old(linedges)@),
    ensures
        final(linedges)@ == old(linedges)@ + lines_line_edges(lines@, *info, lines@.len() as int),
        line_edges_ok(final(linedges)@),
{
    let ghost lbase = linedges@;
    let mut j: usize = 0;
    assert(lbase + lines_line_edges(lines@, *info, 0) =~= lbase);
    while j < lines.len()
        invariant
            info.wf(),
            lines_ok(lines@),
            j <= lines@.len(),
            linedges@ == lbase + lines_line_edges(lines@, *info, j as int),
            line_edges_ok(linedges@),
        decreases lines@.len() - j,
    {
        assert(coords_ok(lines@[j as int].coords@));
        extract_line(linedges, &lines[j], info);
        assert(linedges@ =~= lbase + lines_line_edges(lines@, *info, j + 1));
        j = j + 1;
    }
}

/// The line edges of a one-element prefix depend on that element alone.
pub proof fn lemma_lines_prefix_one(s1: Seq<LineString>, s2: Seq<LineString>, info: RasterInfo)
    requires
        s1.len() >= 1,
        s2.len() >= 1,
        s1[0] == s2[0],
    ensures
        lines_line_edges(s1, info, 1) == lines_line_edges(s2, info, 1),
{
    lemma_rings_prefix(s1, s2, info, 1);
}

/// The edges of one geometry: polygon edges, line edges, both, or none.
pub enum EdgeCollection {
    Empty,
    PolyEdges(Vec<PolyEdge>),
    LineEdges(Vec<LineEdge>),
    Mixed { polyedges: Vec<PolyEdge>, linedges: Vec<LineEdge> },
}

impl EdgeCollection {
    pub open spec fn polys(&self) -> Seq<PolyEdge> {
        match self {
            EdgeCollection::PolyEdges(p) => p@,
            EdgeCollection::Mixed { polyedges, .. } => polyedges@,
            _ => Seq::empty(),
        }
    }

    pub open spec fn lines(&self) -> Seq<LineEdge> {
        match self {
            EdgeCollection::LineEdges(l) => l@,
            EdgeCollection::Mixed { linedges, .. } => linedges@,
            _ => Seq::empty(),
        }
    }

    /// The variant names exactly the kinds of edges present.
    pub open spec fn wf(&self) -> bool {
        match self {
            EdgeCollection::Empty => true,
            EdgeCollection::PolyEdges(p) => p@.len() > 0,
            EdgeCollection::LineEdges(l) => l@.len() > 0,
            EdgeCollection::Mixed { polyedges, linedges } => polyedges@.len() > 0 && linedges@.len() > 0,
        }
    }

    pub fn is_empty(&self) -> (r: bool)
        requires
            self.wf(),
        ensures
            r == (self.polys().len() == 0 && self.lines().len() == 0),
    {
        match self {
            EdgeCollection::Empty => true,
            _ => false,
        }
    }

    /// Adds polygon edges, keeping the line edges.
    pub fn add_polyedges(&mut self, new_polyedges: Vec<PolyEdge>)
        requires
            old(self).wf(),
        ensures
            final(self).wf(),
            final(self).polys() == old(self).polys() + new_polyedges@,
            final(self).lines() == old(self).lines(),
    {
        if new_polyedges.len() == 0 {
            assert(old(self).polys() + new_polyedges@ =~= old(self).polys());
            return;
        }
        let mut added = new_polyedges;
        let mut cur = EdgeCollection::Empty;
        std::mem::swap(self, &mut cur);
        *self = match cur {
            EdgeCollection::Empty => {
                assert(Seq::<PolyEdge>::empty() + added@ =~= added@);
                EdgeCollection::PolyEdges(added)
            },
            EdgeCollection::PolyEdges(mut p) => {
                p.append(&mut added);
                EdgeCollection::PolyEdges(p)
            },
            EdgeCollection::LineEdges(l) => {
                assert(Seq::<PolyEdge>::empty() + added@ =~= added@);
                EdgeCollection::Mixed { polyedges: added, linedges: l }
            },
            EdgeCollection::Mixed { mut polyedges, linedges } => {
                polyedges.append(&mut added);
                EdgeCollection::Mixed { polyedges, linedges }
            },
        };
    }

    /// Adds line edges, keeping the polygon edges.
    pub fn add_linedges(&mut self, new_linedges: Vec<LineEdge>)
        requires
            old(self).wf(),
        ensures
            final(self).wf(),
            final(self).lines() == old(self).lines() + new_linedges@,
            final(self).polys() == old(self).polys(),
    {
        if new_linedges.len() == 0 {
            assert(old(self).lines() + new_linedges@ =~= old(self).lines());
            return;
        }
        let mut added = new_linedges;
        let mut cur = EdgeCollection::Empty;
        std::mem::swap(self, &mut cur);
        *self = match cur {
            EdgeCollection::Empty => {
                assert(Seq::<LineEdge>::empty() + added@ =~= added@);
                EdgeCollection::LineEdges(added)
            },
            EdgeCollection::PolyEdges(p) => {
                assert(Seq::<LineEdge>::empty() + added@ =~= added@);
                EdgeCollection::Mixed { polyedges: p, linedges: added }
            },
            EdgeCollection::LineEdges(mut l) => {
                l.append(&mut added);
                EdgeCollection::LineEdges(l)
            },
            EdgeCollection::Mixed { polyedges, mut linedges } => {
                linedges.append(&mut added);
                EdgeCollection::Mixed { polyedges, linedges }
            },
        };
    }

    /// The polygon edges and the line edges.
    pub fn into_edges(self) -> (r: (Vec<PolyEdge>, Vec<LineEdge>))
        ensures
            r.0@ == self.polys(),
            r.1@ == self.lines(),
    {
        match self {
            EdgeCollection::Empty => (Vec::new(), Vec::new()),
            EdgeCollection::PolyEdges(p) => (p, Vec::new()),
            EdgeCollection::LineEdges(l) => (Vec::new(), l),
            EdgeCollection::Mixed { polyedges, linedges } => (polyedges, linedges),
        }
    }
}

/// Gathers the edges of every part of `geom`: the polygon edges of all its rings, the line
/// edges of all its polylines, and, under the all-touched rule, the line edges of all its
/// rings (returned beside the collection).
pub fn build_edges(geom: &Geometry, info: &RasterInfo, all_touched: bool) -> (r: (EdgeCollection, Vec<LineEdge>))
    requires
        info.wf(),
        geom.wf(),
    ensures
        r.0.wf(),
        r.0.polys() == rings_poly_edges(geometry_rings(*geom), *info, geometry_rings(*geom).len() as int),
        r.0.lines() == lines_line_edges(geometry_lines(*geom), *info, geometry_lines(*geom).len() as int),
        edges_wf(r.0.polys(), *info),
        line_edges_ok(r.0.lines()),
        all_touched ==> r.1@ == lines_line_edges(geometry_rings(*geom), *info, geometry_rings(*geom).len() as int),
        line_edges_ok(r.1@),
{
    let ghost parts = geom.parts@;
    let mut edges = EdgeCollection::Empty;
    let mut ringlines: Vec<LineEdge> = Vec::new();
    let mut k: usize = 0;
    proof {
        assert(edges.polys() =~= rings_poly_edges(parts_rings(parts, 0), *info, 0));
        assert(edges.lines() =~= lines_line_edges(parts_lines(parts, 0), *info, 0));
        assert(ringlines@ =~= lines_line_edges(parts_rings(parts, 0), *info, 0));
    }
    while k < geom.parts.len()
        invariant
            info.wf(),
            geom.wf(),
            parts == geom.parts@,
            k <= parts.len(),
            edges.wf(),
            edges.polys() == rings_poly_edges(parts_rings(parts, k as int), *info, parts_rings(parts, k as int).len() as int),
            edges.lines() == lines_line_edges(parts_lines(parts, k as int), *info, parts_lines(parts, k as int).len() as int),
            edges_wf(edges.polys(), *info),
            line_edges_ok(edges.lines()),
            all_touched ==> ringlines@ == lines_line_edges(parts_rings(parts, k as int), *info, parts_rings(parts, k as int).len() as int),
            line_edges_ok(ringlines@),
        decreases parts.len() - k,
    {
        let part = &geom.parts[k];
        assert(part_ok(parts[k as int]));
        let mut pe: Vec<PolyEdge> = Vec::new();
        let mut le: Vec<LineEdge> = Vec::new();
        let mut rl: Vec<LineEdge> = Vec::new();
        match part {
            Part::Polygon(poly) => {
                extract_polygon(&mut pe, &mut rl, poly, info, all_touched);
            },
            Part::MultiPolygon(v) => {
                assert(forall|i: int| 0 <= i < v@.len() ==> polygon_ok(#[trigger] v@[i]));
                let mut j: usize = 0;
                proof {
                    assert(pe@ =~= rings_poly_edges(polygons_rings(v@, 0), *info, 0));
                    assert(rl@ =~= lines_line_edges(polygons_rings(v@, 0), *info, 0));
                }
                while j < v.len()
                    invariant
                        info.wf(),
                        forall|i: int| 0 <= i < v@.len() ==> polygon_ok(#[trigger] v@[i]),
                        j <= v@.len(),
                        pe@ == rings_poly_edges(polygons_rings(v@, j as int), *info, polygons_rings(v@, j as int).len() as int),
                        all_touched ==> rl@ == lines_line_edges(polygons_rings(v@, j as int), *info, polygons_rings(v@, j as int).len() as int),
                        !all_touched ==> rl@ == Seq::<LineEdge>::empty(),
                        edges_wf(pe@, *info),
                        line_edges_ok(rl@),
                    decreases v@.len() - j,
                {
                    assert(polygon_ok(v@[j as int]));
                    extract_polygon(&mut pe, &mut rl, &v[j], info, all_touched);
                    proof {
                        lemma_rings_concat(polygons_rings(v@, j as int), v@[j as int].rings(), *info);
                        assert(polygons_rings(v@, j + 1) == polygons_rings(v@, j as int) + v@[j as int].rings());
                        if all_touched {
                            assert(rl@ =~= lines_line_edges(polygons_rings(v@, j + 1), *info, polygons_rings(v@, j + 1).len() as int));
                        } else {
                            assert(rl@ =~= Seq::<LineEdge>::empty());
                        }
                    }
                    j = j + 1;
                }
            },
            Part::LineString(l) => {
                extract_line(&mut le, l, info);
                proof {
                    assert(seq![*l][0] == *l);
                    assert(lines_line_edges(seq![*l], *info, 0) == Seq::<LineEdge>::empty());
                    assert(lines_line_edges(seq![*l], *info, 1) =~= Seq::<LineEdge>::empty() + line_edges(l.coords@, *info, l.spec_is_closed(), segments(l.coords@)));
                    assert(le@ =~= lines_line_edges(seq![*l], *info, 1));
                }
            },
            Part::MultiLineString(v) => {
                extract_lines(&mut le, v, info);
                assert(le@ =~= lines_line_edges(v@, *info, v@.len() as int));
            },
            _ => {},
        }
        proof {
            let pr = part_rings(parts[k as int]);
            let pl = part_lines(parts[k as int]);
            assert(pe@ =~= rings_poly_edges(pr, *info, pr.len() as int)) by {
                match parts[k as int] {
                    Part::Polygon(_) => {},
                    Part::MultiPolygon(_) => {},
                    _ => {
                        assert(pe@ =~= Seq::<PolyEdge>::empty());
                    },
                }
            }
            assert(le@ =~= lines_line_edges(pl, *info, pl.len() as int)) by {
                match parts[k as int] {
                    Part::LineString(_) => {},
                    Part::MultiLineString(_) => {},
                    _ => {
                        assert(le@ =~= Seq::<LineEdge>::empty());
                    },
                }
            }
            if all_touched {
                assert(rl@ =~= lines_line_edges(pr, *info, pr.len() as int)) by {
                    match parts[k as int] {
                        Part::Polygon(_) => {},
                        Part::MultiPolygon(_) => {},
                        _ => {
                            assert(rl@ =~= Seq::<LineEdge>::empty());
                        },
                    }
                }
            }
            lemma_rings_concat(parts_rings(parts, k as int), pr, *info);
            lemma_rings_concat(parts_lines(parts, k as int), pl, *info);
            assert(parts_rings(parts, k + 1) == parts_rings(parts, k as int) + pr);
            assert(parts_lines(parts, k + 1) == parts_lines(parts, k as int) + pl);
        }
        let ghost pev = pe@;
        let ghost lev = le@;
        let ghost rlv = rl@;
        let ghost old_polys = edges.polys();
        let ghost old_lines = edges.lines();
        let ghost old_rl = ringlines@;
        edges.add_polyedges(pe);
        edges.add_linedges(le);
        let mut rl2 = rl;
        ringlines.append(&mut rl2);
        proof {
            assert forall|i: int| 0 <= i < edges.polys().len() implies (#[trigger] edges.polys()[i]).wf(*info) by {
                if i < old_polys.len() {
                    assert(edges.polys()[i] == old_polys[i]);
                } else {
                    assert(edges.polys()[i] == pev[i - old_polys.len()]);
                }
            }
            assert forall|i: int| 0 <= i < edges.lines().len() implies line_edge_ok(#[trigger] edges.lines()[i]) by {
                if i < old_lines.len() {
                    assert(edges.lines()[i] == old_lines[i]);
                } else {
                    assert(edges.lines()[i] == lev[i - old_lines.len()]);
                }
            }
            assert forall|i: int| 0 <= i < ringlines@.len() implies line_edge_ok(#[trigger] ringlines@[i]) by {
                if i < old_rl.len() {
                    assert(ringlines@[i] == old_rl[i]);
                } else {
                    assert(ringlines@[i] == rlv[i - old_rl.len()]);
                }
            }
        }
        k = k + 1;
    }
    (edges, ringlines)
}

} // verus!
