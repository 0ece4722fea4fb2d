use rusterize::burn_geometry::{build_edges, EdgeCollection};
use rusterize::edges::{LineEdge, PointEdge, PolyEdge};
use rusterize::geometry::{Coord, Geometry, LineString, Part, Polygon};
use rusterize::raster::RasterInfo;

fn info() -> RasterInfo {
    RasterInfo { ncols: 4, nrows: 4, xmin: 0, xmax: 8, ymin: 0, ymax: 8, xres: 2, yres: 2, epsg: None }
}

#[test]
fn poly_edge_orientation_and_rows() {
    // pixel-space points (1, 7) and (5, 1): the top vertex is (5, 1)
    let e = PolyEdge::new(1, 7, 5, 1, &info());
    assert_eq!((e.x0, e.y0, e.dx, e.dy), (5, 1, -4, 6));
    // row centres lie at y = 1, 3, 5, 7; the edge spans [1, 7)
    assert_eq!((e.ystart, e.yend), (0, 3));
}

#[test]
fn point_edge_holds_indices() {
    let p = PointEdge::new(3, 1);
    assert_eq!((p.x, p.y), (3, 1));
    let l = LineEdge::new(0, 1, 2, 3, true, false);
    assert!(l.is_closed && !l.is_last && l.x1 == 2);
}

#[test]
fn edge_collection_variants() {
    let mut e = EdgeCollection::Empty;
    assert!(e.is_empty());
    e.add_polyedges(vec![]);
    assert!(matches!(e, EdgeCollection::Empty));
    e.add_linedges(vec![LineEdge::new(0, 0, 1, 1, false, true)]);
    assert!(matches!(e, EdgeCollection::LineEdges(_)));
    e.add_polyedges(vec![PolyEdge::new(0, 0, 0, 4, &info())]);
    assert!(matches!(e, EdgeCollection::Mixed { .. }));
    assert!(!e.is_empty());
    let (p, l) = e.into_edges();
    assert_eq!((p.len(), l.len()), (1, 1));
}

#[test]
fn build_edges_drops_horizontal_and_off_grid_segments() {
    let square = LineString {
        coords: vec![Coord { x: 2, y: 2 }, Coord { x: 6, y: 2 }, Coord { x: 6, y: 6 }, Coord { x: 2, y: 6 }, Coord { x: 2, y: 2 }],
    };
    let above = LineString { coords: vec![Coord { x: 0, y: 20 }, Coord { x: 4, y: 30 }] };
    let g = Geometry {
        parts: vec![Part::Polygon(Polygon { exterior: square.clone(), interiors: vec![] }), Part::LineString(above), Part::LineString(square)],
    };
    let (edges, ringlines) = build_edges(&g, &info(), true);
    let (polys, lines) = edges.into_edges();
    // only the two vertical sides of the square are polygon edges
    assert_eq!(polys.len(), 2);
    assert!(polys.iter().all(|e| e.dy > 0));
    // the segment above the grid is dropped; the square's four sides stay
    assert_eq!(lines.len(), 4);
    assert!(lines.iter().all(|e| e.is_closed));
    assert_eq!(ringlines.len(), 4);
}

#[test]
fn edge_rows_are_not_clamped_to_the_grid() {
    // a one-row grid with unit cells; the edge spans pixel-space y from 0 to 10
    let one_row = RasterInfo { ncols: 1, nrows: 1, xmin: 0, xmax: 1, ymin: 0, ymax: 1, xres: 1, yres: 1, epsg: None };
    let e = PolyEdge::new(0, 0, 0, 10, &one_row);
    assert_eq!((e.ystart, e.yend), (0, 10));
}

#[test]
fn only_the_last_segment_of_each_part_is_marked() {
    let a = LineString { coords: vec![Coord { x: 1, y: 1 }, Coord { x: 3, y: 1 }, Coord { x: 3, y: 3 }] };
    let b = LineString { coords: vec![Coord { x: 5, y: 5 }, Coord { x: 7, y: 5 }] };
    let g = Geometry { parts: vec![Part::MultiLineString(vec![a, b])] };
    let (edges, _) = build_edges(&g, &info(), false);
    let (_, lines) = edges.into_edges();
    assert_eq!(lines.iter().map(|e| e.is_last).collect::<Vec<_>>(), vec![false, true, true]);
}
