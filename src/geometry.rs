//! Vector geometries in integer world coordinates.
use vstd::prelude::*;
use crate::raster::in_coord_range;

verus! {

/// A vertex in world coordinates.
#[derive(Clone, Copy, Debug, PartialEq, Eq, Structural)]
pub struct Coord {
    pub x: i64,
    pub y: i64,
}

/// A polyline: consecutive coordinates are joined by segments.
#[derive(Clone, Debug)]
pub struct LineString {
    pub coords: Vec<Coord>,
}

/// A polygon: an exterior ring and zero or more holes.
#[derive(Clone, Debug)]
pub struct Polygon {
    pub exterior: LineString,
    pub interiors: Vec<LineString>,
}

/// A single-kind geometry.
#[derive(Clone, Debug)]
pub enum Part {
    Point(Coord),
    MultiPoint(Vec<Coord>),
    LineString(LineString),
    MultiLineString(Vec<LineString>),
    Polygon(Polygon),
    MultiPolygon(Vec<Polygon>),
}

/// A geometry: one part, or the members of a geometry collection in order.
#[derive(Clone, Debug)]
pub struct Geometry {
    pub parts: Vec<Part>,
}

pub open spec fn coord_ok(c: Coord) -> bool {
    in_coord_range(c.x as int) && in_coord_range(c.y as int)
}

pub open spec fn coords_ok(s: Seq<Coord>) -> bool {
    forall|i: int| 0 <= i < s.len() ==> coord_ok(#[trigger] s[i])
}

impl LineString {
    /// Whether the line ends where it starts.
    pub open spec fn spec_is_closed(&self) -> bool {
        self.coords@.len() > 0 ==> self.coords@[0] == self.coords@.last()
    }

    /// Whether the line ends where it starts (an empty line counts as closed).
    pub fn is_closed(&self) -> (r: bool)
        ensures
            r == self.spec_is_closed(),
    {
        if self.coords.len() == 0 {
            true
        } else {
            self.coords[0] == self.coords[self.coords.len() - 1]
        }
    }
}

impl Polygon {
    /// All rings: the exterior first, then the holes.
    pub open spec fn rings(&self) -> Seq<LineString> {
        seq![self.exterior].add(self.interiors@)
    }
}

pub open spec fn lines_ok(s: Seq<LineString>) -> bool {
    forall|i: int| 0 <= i < s.len() ==> coords_ok(#[trigger] s[i].coords@)
}

pub open spec fn polygon_ok(p: Polygon) -> bool {
    lines_ok(p.rings())
}

pub open spec fn part_ok(p: Part) -> bool {
    match p {
        Part::Point(c) => coord_ok(c),
        Part::MultiPoint(v) => coords_ok(v@),
        Part::LineString(l) => coords_ok(l.coords@),
        Part::MultiLineString(v) => lines_ok(v@),
        Part::Polygon(p) => polygon_ok(p),
        Part::MultiPolygon(v) => forall|i: int| 0 <= i < v@.len() ==> polygon_ok(#[trigger] v@[i]),
    }
}

impl Geometry {
    /// Every coordinate lies within the coordinate bound.
    pub open spec fn wf(&self) -> bool {
        forall|i: int| 0 <= i < self.parts@.len() ==> part_ok(#[trigger] self.parts@[i])
    }
}

} // verus!
