//! Bounding boxes of geometries.
use vstd::prelude::*;
use crate::geometry::{Coord, Geometry, LineString, Part, Polygon};
use crate::raster::{bounding_rect_merge, merge_opt, Bounds};

verus! {

pub open spec fn point_box(c: Coord) -> Bounds {
    Bounds { xmin: c.x, ymin: c.y, xmax: c.x, ymax: c.y }
}

/// Box of the first `k` coordinates.
pub open spec fn coords_bounds(s: Seq<Coord>, k: int) -> Option<Bounds>
    decreases k,
{
    if k <= 0 {
        None
    } else {
        merge_opt(coords_bounds(s, k - 1), Some(point_box(s[k - 1])))
    }
}

/// Box of the first `k` polylines.
pub open spec fn lines_bounds(s: Seq<LineString>, k: int) -> Option<Bounds>
    decreases k,
{
    if k <= 0 {
        None
    } else {
        merge_opt(lines_bounds(s, k - 1), coords_bounds(s[k - 1].coords@, s[k - 1].coords@.len() as int))
    }
}

/// Box of the first `k` polygons.
pub open spec fn polygons_bounds(s: Seq<Polygon>, k: int) -> Option<Bounds>
    decreases k,
{
    if k <= 0 {
        None
    } else {
        merge_opt(polygons_bounds(s, k - 1), lines_bounds(s[k - 1].rings(), s[k - 1].rings().len() as int))
    }
}

pub open spec fn part_bounds(p: Part) -> Option<Bounds> {
    match p {
        Part::Point(c) => Some(point_box(c)),
        Part::MultiPoint(v) => coords_bounds(v@, v@.len() as int),
        Part::LineString(l) => coords_bounds(l.coords@, l.coords@.len() as int),
        Part::MultiLineString(v) => lines_bounds(v@, v@.len() as int),
        Part::Polygon(p) => lines_bounds(p.rings(), p.rings().len() as int),
        Part::MultiPolygon(v) => polygons_bounds(v@, v@.len() as int),
    }
}

/// Box of the first `k` parts.
pub open spec fn parts_bounds(s: Seq<Part>, k: int) -> Option<Bounds>
    decreases k,
{
    if k <= 0 {
        None
    } else {
        merge_opt(parts_bounds(s, k - 1), part_bounds(s[k - 1]))
    }
}

/// Box of the first `k` geometries.
pub open spec fn geometries_bounds(s: Seq<Geometry>, k: int) -> Option<Bounds>
    decreases k,
{
    if k <= 0 {
        None
    } else {
        merge_opt(geometries_bounds(s, k - 1), parts_bounds(s[k - 1].parts@, s[k - 1].parts@.len() as int))
    }
}

fn coords_rect(s: &Vec<Coord>) -> (r: Option<Bounds>)
    ensures
        r == coords_bounds(s@, s@.len() as int),
{
    let mut acc: Option<Bounds> = None;
    let mut i: usize = 0;
    while i < s.len()
        invariant
            i <= s@.len(),
            acc == coords_bounds(s@, i as int),
        decreases s@.len() - i,
    {
        let c = s[i];
        acc = bounding_rect_merge(acc, Some(Bounds { xmin: c.x, ymin: c.y, xmax: c.x, ymax: c.y }));
        i = i + 1;
    }
    acc
}

fn lines_rect(s: &Vec<LineString>) -> (r: Option<Bounds>)
    ensures
        r == lines_bounds(s@, s@.len() as int),
{
    let mut acc: Option<Bounds> = None;
    let mut i: usize = 0;
    while i < s.len()
        invariant
            i <= s@.len(),
            acc == lines_bounds(s@, i as int),
        decreases s@.len() - i,
    {
        acc = bounding_rect_merge(acc, coords_rect(&s[i].coords));
        i = i + 1;
    }
    acc
}

fn polygon_rect(p: &Polygon) -> (r: Option<Bounds>)
    ensures
        r == lines_bounds(p.rings(), p.rings().len() as int),
{
    let ghost rings = p.rings();
    let mut acc = coords_rect(&p.exterior.coords);
    proof {
        assert(rings[0] == p.exterior);
        assert(merge_opt(None, coords_bounds(rings[0].coords@, rings[0].coords@.len() as int)) == acc);
        assert(lines_bounds(rings, 0) == None::<Bounds>);
        assert(acc == lines_bounds(rings, 1));
    }
    let mut i: usize = 0;
    while i < p.interiors.len()
        invariant
            rings == p.rings(),
            rings.len() == p.interiors@.len() + 1,
            i <= p.interiors@.len(),
            acc == lines_bounds(rings, i + 1),
        decreases p.interiors@.len() - i,
    {
        assert(rings[i + 1] == p.interiors@[i as int]);
        acc = bounding_rect_merge(acc, coords_rect(&p.interiors[i].coords));
        i = i + 1;
    }
    acc
}

fn polygons_rect(s: &Vec<Polygon>) -> (r: Option<Bounds>)
    ensures
        r == polygons_bounds(s@, s@.len() as int),
{
    let mut acc: Option<Bounds> = None;
    let mut i: usize = 0;
    while i < s.len()
        invariant
            i <= s@.len(),
            acc == polygons_bounds(s@, i as int),
        decreases s@.len() - i,
    {
        acc = bounding_rect_merge(acc, polygon_rect(&s[i]));
        i = i + 1;
    }
    acc
}

fn part_rect(p: &Part) -> (r: Option<Bounds>)
    ensures
        r == part_bounds(*p),
{
    match p {
        Part::Point(c) => Some(Bounds { xmin: c.x, ymin: c.y, xmax: c.x, ymax: c.y }),
        Part::MultiPoint(v) => coords_rect(v),
        Part::LineString(l) => coords_rect(&l.coords),
        Part::MultiLineString(v) => lines_rect(v),
        Part::Polygon(poly) => polygon_rect(poly),
        Part::MultiPolygon(v) => polygons_rect(v),
    }
}

/// The smallest box holding every coordinate of every geometry; `None` when there is none.
pub fn bounding_rect(geoms: &Vec<Geometry>) -> (r: Option<Bounds>)
    ensures
        r == geometries_bounds(geoms@, geoms@.len() as int),
{
    let mut acc: Option<Bounds> = None;
    let mut i: usize = 0;
    while i < geoms.len()
        invariant
            i <= geoms@.len(),
            acc == geometries_bounds(geoms@, i as int),
        decreases geoms@.len() - i,
    {
        let g = &geoms[i];
        let mut pacc: Option<Bounds> = None;
        let mut k: usize = 0;
        while k < g.parts.len()
            invariant
                k <= g.parts@.len(),
                pacc == parts_bounds(g.parts@, k as int),
            decreases g.parts@.len() - k,
        {
            pacc = bounding_rect_merge(pacc, part_rect(&g.parts[k]));
            k = k + 1;
        }
        acc = bounding_rect_merge(acc, pacc);
        i = i + 1;
    }
    acc
}

} // verus!
