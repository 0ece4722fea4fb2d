//! Burning a whole geometry: its polygons, then its lines, then its points.
use vstd::prelude::*;
use crate::burn_geometry::{build_edges, burn_line_edges, burn_point, burn_polygon_edges, geometry_hits, geometry_lines, geometry_rings, line_set, lines_line_edges, parts_point_hits, point_writes, polygon_set, set_hits};
use crate::edges::{extract_point, PointEdge};
use crate::emit::{appends_hits, count_at, iterate, lemma_appends_compose, lemma_extends_hits, lemma_replay_counts};
use crate::geometry::{coord_ok, coords_ok, part_ok, Geometry, Part};
use crate::pixel_functions::PixelFunction;
use crate::raster::RasterInfo;
use crate::writers::{replay, Emission, PixelWriter};

verus! {

/// The pixels of the points of every part of `geom` that fall in the grid.
fn collect_points(geom: &Geometry, info: &RasterInfo) -> (pes: Vec<PointEdge>)
    requires
        info.wf(),
        geom.wf(),
    ensures
        forall|j: int| 0 <= j < pes@.len() ==> info.contains((#[trigger] pes@[j]).y as int, pes@[j].x as int),
        forall|v: i64, p: (int, int)| #[trigger] count_at(point_writes(pes@, v), p) == parts_point_hits(geom.parts@, *info, p, geom.parts@.len() as int),
{
    let ghost parts = geom.parts@;
    let mut pes: Vec<PointEdge> = Vec::new();
    let mut k: usize = 0;
    while k < geom.parts.len()
        invariant
            info.wf(),
            geom.wf(),
            parts == geom.parts@,
            k <= parts.len(),
            forall|j: int| 0 <= j < pes@.len() ==> info.contains((#[trigger] pes@[j]).y as int, pes@[j].x as int),
            forall|v: i64, p: (int, int)| #[trigger] count_at(point_writes(pes@, v), p) == parts_point_hits(parts, *info, p, k as int),
        decreases parts.len() - k,
    {
        assert(part_ok(parts[k as int]));
        let ghost before = pes@;
        let mut coords: Vec<crate::geometry::Coord> = Vec::new();
        match &geom.parts[k] {
            Part::Point(c) => {
                coords.push(*c);
            },
            Part::MultiPoint(v) => {
                coords = v.clone();
                assert(coords@ =~= v@);
            },
            _ => {},
        }
        proof {
            match parts[k as int] {
                Part::Point(c) => {
                    assert(coords@ =~= seq![c]);
                },
                _ => {},
            }
        }
        let ghost cs = coords@;
        assert(coords_ok(cs));
        let mut i: usize = 0;
        while i < coords.len()
            invariant
                info.wf(),
                cs == coords@,
                coords_ok(cs),
                i <= cs.len(),
                forall|j: int| 0 <= j < pes@.len() ==> info.contains((#[trigger] pes@[j]).y as int, pes@[j].x as int),
                forall|v: i64, p: (int, int)| #[trigger] count_at(point_writes(pes@, v), p) == parts_point_hits(parts, *info, p, k as int)
                    + crate::burn_geometry::point_hits(cs, *info, p, i as int),
            decreases cs.len() - i,
        {
            assert(coord_ok(cs[i as int]));
            let ghost old_pes = pes@;
            extract_point(&mut pes, &coords[i], info);
            proof {
                assert forall|v: i64, p: (int, int)| #[trigger] count_at(point_writes(pes@, v), p) == parts_point_hits(parts, *info, p, k as int)
                    + crate::burn_geometry::point_hits(cs, *info, p, i + 1) by {
                    let m0 = point_writes(old_pes, v);
                    let m1 = point_writes(pes@, v);
                    if pes@.len() > old_pes.len() {
                        assert(m1.drop_last() =~= m0);
                    } else {
                        assert(m1 =~= m0);
                    }
                    assert(count_at(m0, p) == parts_point_hits(parts, *info, p, k as int) + crate::burn_geometry::point_hits(cs, *info, p, i as int));
                }
            }
            i = i + 1;
        }
        proof {
            assert forall|v: i64, p: (int, int)| #[trigger] count_at(point_writes(pes@, v), p) == parts_point_hits(parts, *info, p, k + 1) by {
                match parts[k as int] {
                    Part::Point(c) => {
                        assert(seq![c] == cs);
                    },
                    Part::MultiPoint(mp) => {
                        assert(mp@ == cs);
                    },
                    _ => {},
                }
            }
        }
        k = k + 1;
    }
    pes
}

/// `after` extends `before`, and replaying it on any cell has the effect of burning `geom` with `v`.
pub open spec fn burns_geometry(before: Seq<Emission>, after: Seq<Emission>, geom: Geometry, info: RasterInfo, all_touched: bool, v: i64) -> bool {
    &&& before.len() <= after.len()
    &&& after.subrange(0, before.len() as int) == before
    &&& forall|f: PixelFunction, bg: i64, init: i64, r: int, c: int|
        #[trigger] replay(f, bg, init, after, r, c) == iterate(f, bg, replay(f, bg, init, before, r, c), v, geometry_hits(geom, info, all_touched, (r, c)))
}

/// Burns `geom` with `value`: its polygons (all rings together), its lines, its points.
pub fn rasterize_geometry<W: PixelWriter>(geom: &Geometry, info: &RasterInfo, value: i64, writer: W, background: i64, all_touched: bool) -> (w: W)
    requires
        info.wf(),
        geom.wf(),
        writer.inv(),
        forall|r: int, c: int| info.contains(r, c) ==> #[trigger] writer.accepts(r, c, background),
    ensures
        w.inv(),
        forall|r: int, c: int, b: i64| #[trigger] w.accepts(r, c, b) == writer.accepts(r, c, b),
        w.frame() == writer.frame(),
        burns_geometry(writer.received(), w.received(), *geom, *info, all_touched, value),
        appends_hits(writer.received(), w.received(), value, |p: (int, int)| geometry_hits(*geom, *info, all_touched, p)),
{
    let ghost base = writer.received();
    let (edges, ringlines) = build_edges(geom, info, all_touched);
    let points = collect_points(geom, info);
    let (polyedges, linedges) = edges.into_edges();
    let w1 = burn_polygon_edges(&polyedges, &ringlines, info, value, writer, background, all_touched);
    let ghost r1 = w1.received();
    let ghost s_poly = polygon_set(geometry_rings(*geom), *info, all_touched);
    proof {
        lemma_extends_hits(base, r1, s_poly, value);
    }
    let w2 = burn_line_edges(&linedges, info, value, w1, background, all_touched);
    let ghost r2 = w2.received();
    let ghost s_line = line_set(lines_line_edges(geometry_lines(*geom), *info, geometry_lines(*geom).len() as int), *info, all_touched);
    proof {
        lemma_extends_hits(r1, r2, s_line, value);
    }
    let mut w3 = w2;
    burn_point(&points, value, &mut w3, background);
    let ghost hp = |p: (int, int)| parts_point_hits(geom.parts@, *info, p, geom.parts@.len() as int);
    proof {
        let added = point_writes(points@, value);
        assert(w3.received().skip(r2.len() as int) =~= added);
        assert(w3.received().subrange(0, r2.len() as int) =~= r2);
        assert forall|p: (int, int)| #[trigger] count_at(w3.received().skip(r2.len() as int), p) == hp(p) by {
            assert(count_at(point_writes(points@, value), p) == parts_point_hits(geom.parts@, *info, p, geom.parts@.len() as int));
        }
        assert(appends_hits(r2, w3.received(), value, hp));
        let h1 = |p: (int, int)| set_hits(s_poly, p);
        let h2 = |p: (int, int)| set_hits(s_line, p);
        lemma_appends_compose(base, r1, r2, value, h1, h2);
        let h12 = |p: (int, int)| h1(p) + h2(p);
        lemma_appends_compose(base, r2, w3.received(), value, h12, hp);
        let after = w3.received();
        let added = after.skip(base.len() as int);
        assert(after =~= base + added);
        assert forall|i: int| 0 <= i < added.len() implies (#[trigger] added[i]).value == value by {
            assert(added[i] == after[i + base.len()]);
        }
        assert forall|f: PixelFunction, bg: i64, init: i64, r: int, c: int|
            #[trigger] replay(f, bg, init, after, r, c) == iterate(f, bg, replay(f, bg, init, base, r, c), value, geometry_hits(*geom, *info, all_touched, (r, c))) by {
            lemma_replay_counts(f, bg, init, base, added, value, r, c);
        }
    }
    w3
}

} // verus!
