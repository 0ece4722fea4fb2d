use rusterize::geometry::{Coord, Geometry, LineString, Part, Polygon};
use rusterize::pixel_functions::{set_pixel_function, PixelFunction};
use rusterize::raster::RasterInfo;
use rusterize::rusterize_impl::{rasterize_dense, rasterize_sparse, RasterizeError};

fn grid(n: usize, res: i64) -> RasterInfo {
    RasterInfo {
        ncols: n,
        nrows: n,
        xmin: 0,
        xmax: n as i64 * res,
        ymin: 0,
        ymax: n as i64 * res,
        xres: res,
        yres: res,
        epsg: None,
    }
}

fn ring(pts: &[(i64, i64)]) -> LineString {
    LineString { coords: pts.iter().map(|&(x, y)| Coord { x, y }).collect() }
}

fn polygon(pts: &[(i64, i64)]) -> Geometry {
    Geometry { parts: vec![Part::Polygon(Polygon { exterior: ring(pts), interiors: vec![] })] }
}

fn line(pts: &[(i64, i64)]) -> Geometry {
    Geometry { parts: vec![Part::LineString(ring(pts))] }
}

fn rect(x0: i64, y0: i64, x1: i64, y1: i64) -> Geometry {
    polygon(&[(x0, y0), (x1, y0), (x1, y1), (x0, y1), (x0, y0)])
}

fn dense(
    geoms: &Vec<Geometry>,
    info: &RasterInfo,
    f: PixelFunction,
    field: Option<Vec<Option<i64>>>,
    by: Option<Vec<String>>,
    all_touched: bool,
) -> Vec<Vec<i64>> {
    rasterize_dense(geoms, info, f, 0, field, by, 1, all_touched).unwrap().bands
}

fn rows_of(band: &[i64], ncols: usize) -> Vec<Vec<i64>> {
    band.chunks(ncols).map(|c| c.to_vec()).collect()
}

fn set_cells(band: &[i64], ncols: usize) -> Vec<(usize, usize)> {
    let mut out = Vec::new();
    for (i, v) in band.iter().enumerate() {
        if *v != 0 {
            out.push((i / ncols, i % ncols));
        }
    }
    out
}

#[test]
fn single_square_any() {
    let info = grid(4, 1);
    let geoms = vec![rect(1, 1, 3, 3)];
    let b = dense(&geoms, &info, PixelFunction::Any, Some(vec![Some(1)]), None, false);
    assert_eq!(rows_of(&b[0], 4), vec![vec![0, 0, 0, 0], vec![0, 1, 1, 0], vec![0, 1, 1, 0], vec![0, 0, 0, 0]]);
}

#[test]
fn single_square_all_touched() {
    let info = grid(4, 1);
    let geoms = vec![rect(1, 1, 3, 3)];
    let b = dense(&geoms, &info, PixelFunction::Any, Some(vec![Some(1)]), None, true);
    assert_eq!(rows_of(&b[0], 4), vec![vec![0, 0, 0, 0], vec![0, 1, 1, 0], vec![0, 1, 1, 0], vec![0, 0, 0, 0]]);
}

// The cell size is 2 units so that the line's endpoints (0.5, 0.5) and (4.5, 4.5)
// in cell units are integers. Cell (k, k) counted from the lower-left corner is
// row 4 - k from the top, column k.
#[test]
fn diagonal_line_standard() {
    let info = grid(5, 2);
    let geoms = vec![line(&[(1, 1), (9, 9)])];
    let b = dense(&geoms, &info, PixelFunction::Any, None, None, false);
    assert_eq!(set_cells(&b[0], 5), vec![(0, 4), (1, 3), (2, 2), (3, 1), (4, 0)]);
}

#[test]
fn diagonal_line_all_touched() {
    let info = grid(5, 2);
    let geoms = vec![line(&[(1, 1), (9, 9)])];
    let b = dense(&geoms, &info, PixelFunction::Any, None, None, true);
    assert_eq!(set_cells(&b[0], 5), vec![(0, 4), (1, 3), (2, 2), (3, 1), (4, 0)]);
}

#[test]
fn overlapping_polygons_sum() {
    let info = grid(3, 1);
    // A: columns 0-1, rows 0-1 from the top; B: columns 1-2, rows 1-2.
    let geoms = vec![rect(0, 1, 2, 3), rect(1, 0, 3, 2)];
    let b = dense(&geoms, &info, PixelFunction::Sum, Some(vec![Some(2), Some(3)]), None, false);
    assert_eq!(rows_of(&b[0], 3), vec![vec![2, 2, 0], vec![2, 5, 3], vec![0, 3, 3]]);
}

#[test]
fn grouped_bands() {
    let info = grid(3, 1);
    let geoms = vec![rect(0, 1, 2, 3), rect(1, 0, 3, 2), rect(0, 0, 1, 1)];
    let by = vec!["a".to_string(), "a".to_string(), "b".to_string()];
    let out = rasterize_dense(&geoms, &info, PixelFunction::Sum, 0, Some(vec![Some(1), Some(1), Some(1)]), Some(by), 1, false).unwrap();
    assert_eq!(out.band_names, vec!["a".to_string(), "b".to_string()]);
    assert_eq!(rows_of(&out.bands[0], 3), vec![vec![1, 1, 0], vec![1, 2, 1], vec![0, 1, 1]]);
    assert_eq!(rows_of(&out.bands[1], 3), vec![vec![0, 0, 0], vec![0, 0, 0], vec![1, 0, 0]]);
}

#[test]
fn empty_geometry_list_is_an_error() {
    let info = grid(3, 1);
    let geoms: Vec<Geometry> = vec![];
    assert_eq!(rasterize_dense(&geoms, &info, PixelFunction::Sum, 0, None, None, 1, false).err(), Some(RasterizeError::NoGeometries));
    assert!(rasterize_sparse(&geoms, &info, PixelFunction::Sum, 0, None, None, 1, false).is_err());
}

#[test]
fn polygon_outside_raster_leaves_background() {
    let info = grid(3, 1);
    let geoms = vec![rect(10, 10, 12, 12)];
    let b = dense(&geoms, &info, PixelFunction::Sum, None, None, false);
    assert_eq!(b[0], vec![0; 9]);
}

#[test]
fn polygon_inside_one_pixel() {
    // 4 units per cell: a small square inside cell (row 0, col 0) that stays above its centre line.
    let info = grid(2, 4);
    let geoms = vec![rect(1, 6, 2, 7)];
    let standard = dense(&geoms, &info, PixelFunction::Any, None, None, false);
    assert_eq!(standard[0], vec![0, 0, 0, 0]);
    let touched = dense(&geoms, &info, PixelFunction::Any, None, None, true);
    assert_eq!(touched[0], vec![1, 0, 0, 0]);
}

#[test]
fn horizontal_edges_contribute_nothing() {
    // A band whose horizontal edges lie between the two row centres (y = 2 and y = 6).
    let info = grid(2, 4);
    let geoms = vec![polygon(&[(0, 3), (8, 3), (8, 5), (0, 5), (0, 3)])];
    let b = dense(&geoms, &info, PixelFunction::Count, None, None, false);
    assert_eq!(b[0], vec![0; 4]);
}

#[test]
fn line_leaving_and_reentering_raster() {
    let info = grid(4, 1);
    let geoms = vec![line(&[(0, 0), (0, 4), (0, 8), (3, 8), (3, 0)])];
    let b = dense(&geoms, &info, PixelFunction::Count, None, None, false);
    for v in &b[0] {
        assert!(*v == 0 || *v == 1);
    }
    assert!(b[0].iter().any(|v| *v == 1));
}

#[test]
fn sparse_materializes_to_dense() {
    let info = grid(3, 1);
    let geoms = vec![rect(0, 1, 2, 3), rect(1, 0, 3, 2), line(&[(0, 0), (3, 3)])];
    let field = Some(vec![Some(2), Some(3), Some(4)]);
    for f in [PixelFunction::Sum, PixelFunction::First, PixelFunction::Last, PixelFunction::Min, PixelFunction::Max, PixelFunction::Count, PixelFunction::Any] {
        let d = rasterize_dense(&geoms, &info, f, 0, field.clone(), None, 1, false).unwrap();
        let s = rasterize_sparse(&geoms, &info, f, 0, field.clone(), None, 1, false).unwrap();
        assert_eq!(s.materialize(), d.bands);
    }
}

#[test]
fn any_is_idempotent() {
    let info = grid(3, 1);
    let once = vec![rect(0, 1, 2, 3), line(&[(0, 0), (3, 3)])];
    let mut twice = once.clone();
    twice.extend(once.clone());
    assert_eq!(dense(&once, &info, PixelFunction::Any, None, None, false), dense(&twice, &info, PixelFunction::Any, None, None, false));
}

#[test]
fn sum_is_additive() {
    let info = grid(3, 1);
    let a = rect(0, 1, 2, 3);
    let b = rect(1, 0, 3, 2);
    let both = dense(&vec![a.clone(), b.clone()], &info, PixelFunction::Sum, None, None, false);
    let ra = dense(&vec![a], &info, PixelFunction::Sum, None, None, false);
    let rb = dense(&vec![b], &info, PixelFunction::Sum, None, None, false);
    let added: Vec<i64> = ra[0].iter().zip(rb[0].iter()).map(|(x, y)| x + y).collect();
    assert_eq!(both[0], added);
}

#[test]
fn count_over_disjoint_cover() {
    let info = grid(2, 1);
    let geoms = vec![rect(0, 0, 1, 2), rect(1, 0, 2, 2)];
    let b = dense(&geoms, &info, PixelFunction::Count, None, None, false);
    assert!(b[0].iter().all(|v| *v >= 0 && *v <= 2));
    assert_eq!(b[0], vec![1, 1, 1, 1]);
}

#[test]
fn all_touched_is_superset() {
    let info = grid(4, 2);
    let geoms = vec![polygon(&[(1, 1), (7, 2), (4, 7), (1, 1)])];
    let std_ = dense(&geoms, &info, PixelFunction::Any, None, None, false);
    let at = dense(&geoms, &info, PixelFunction::Any, None, None, true);
    for (s, a) in std_[0].iter().zip(at[0].iter()) {
        assert!(*s == 0 || *a == 1);
    }
    assert!(at[0].iter().sum::<i64>() > std_[0].iter().sum::<i64>());
}

#[test]
fn closed_line_matches_ring_outline() {
    let info = grid(4, 1);
    let pts = [(0, 1), (3, 1), (3, 4), (0, 4), (0, 1)];
    let as_line = dense(&vec![line(&pts)], &info, PixelFunction::Count, None, None, false);
    let mut again = as_line.clone();
    again[0].iter_mut().for_each(|v| *v = (*v != 0) as i64);
    assert_eq!(as_line, again);
    assert_eq!(as_line[0].iter().sum::<i64>(), 12);
}

#[test]
fn reducer_names() {
    assert_eq!(set_pixel_function("sum"), Some(PixelFunction::Sum));
    assert_eq!(set_pixel_function("first"), Some(PixelFunction::First));
    assert_eq!(set_pixel_function("last"), Some(PixelFunction::Last));
    assert_eq!(set_pixel_function("min"), Some(PixelFunction::Min));
    assert_eq!(set_pixel_function("max"), Some(PixelFunction::Max));
    assert_eq!(set_pixel_function("count"), Some(PixelFunction::Count));
    assert_eq!(set_pixel_function("any"), Some(PixelFunction::Any));
    assert_eq!(set_pixel_function("median"), None);
}

#[test]
fn null_fields_are_skipped() {
    let info = grid(2, 1);
    let geoms = vec![rect(0, 0, 2, 2), rect(0, 0, 1, 1)];
    let b = dense(&geoms, &info, PixelFunction::Sum, Some(vec![None, Some(5)]), None, false);
    assert_eq!(b[0], vec![0, 0, 5, 0]);
}

fn collection(parts: Vec<Part>) -> Geometry {
    Geometry { parts }
}

fn poly_part(x0: i64, y0: i64, x1: i64, y1: i64) -> Part {
    match rect(x0, y0, x1, y1).parts.into_iter().next().unwrap() {
        p => p,
    }
}

#[test]
fn collection_members_fill_together() {
    // Two overlapping squares in one geometry collection share one even-odd fill,
    // so their overlap is outside; as separate geometries it is counted twice.
    let info = grid(3, 1);
    let together = vec![collection(vec![poly_part(0, 1, 2, 3), poly_part(1, 0, 3, 2)])];
    let b = dense(&together, &info, PixelFunction::Count, None, None, false);
    assert_eq!(rows_of(&b[0], 3), vec![vec![1, 1, 0], vec![1, 0, 1], vec![0, 1, 1]]);
    let apart = vec![rect(0, 1, 2, 3), rect(1, 0, 3, 2)];
    let b = dense(&apart, &info, PixelFunction::Count, None, None, false);
    assert_eq!(rows_of(&b[0], 3), vec![vec![1, 1, 0], vec![1, 2, 1], vec![0, 1, 1]]);
}

#[test]
fn collection_with_polygon_line_and_point() {
    let info = grid(4, 1);
    let g = collection(vec![
        poly_part(0, 2, 2, 4),
        Part::LineString(ring(&[(0, 0), (4, 0)])),
        Part::Point(Coord { x: 3, y: 4 }),
        Part::MultiPoint(vec![Coord { x: 3, y: 4 }]),
    ]);
    let b = dense(&vec![g], &info, PixelFunction::Count, None, None, false);
    // the horizontal line on the bottom border stays outside the grid
    assert_eq!(rows_of(&b[0], 4), vec![vec![1, 1, 0, 2], vec![1, 1, 0, 0], vec![0, 0, 0, 0], vec![0, 0, 0, 0]]);
}

#[test]
fn points_mark_their_cells() {
    let info = grid(3, 1);
    // a point on a cell's top or left border belongs to that cell; (0, 0) lies on the grid's
    // bottom border and so outside it
    let g = Geometry {
        parts: vec![Part::MultiPoint(vec![Coord { x: 0, y: 1 }, Coord { x: 2, y: 2 }, Coord { x: 5, y: 5 }, Coord { x: 0, y: 0 }])],
    };
    let b = dense(&vec![g], &info, PixelFunction::Sum, Some(vec![Some(4)]), None, false);
    assert_eq!(rows_of(&b[0], 3), vec![vec![0, 0, 0], vec![0, 0, 4], vec![4, 0, 0]]);
}

#[test]
fn reducers_first_last_min_max() {
    let info = grid(2, 1);
    let geoms = vec![rect(0, 0, 2, 2), rect(0, 0, 1, 1), rect(1, 1, 2, 2)];
    let field = Some(vec![Some(5), Some(3), Some(9)]);
    assert_eq!(dense(&geoms, &info, PixelFunction::First, field.clone(), None, false)[0], vec![5, 5, 5, 5]);
    assert_eq!(dense(&geoms, &info, PixelFunction::Last, field.clone(), None, false)[0], vec![5, 9, 3, 5]);
    assert_eq!(dense(&geoms, &info, PixelFunction::Min, field.clone(), None, false)[0], vec![5, 5, 3, 5]);
    assert_eq!(dense(&geoms, &info, PixelFunction::Max, field.clone(), None, false)[0], vec![5, 9, 5, 5]);
}

#[test]
fn background_counts_as_unset() {
    let info = grid(1, 1);
    let geoms = vec![rect(0, 0, 1, 1), rect(0, 0, 1, 1)];
    let out = rasterize_dense(&geoms, &info, PixelFunction::Sum, 7, Some(vec![Some(2), Some(3)]), None, 1, false).unwrap();
    // first write replaces the background 7, second adds
    assert_eq!(out.bands[0], vec![5]);
}

#[test]
fn each_open_part_keeps_its_end_cell() {
    // two disjoint open parts; each ends inside the grid, and both end cells are burnt
    let info = grid(4, 1);
    let g = Geometry {
        parts: vec![Part::MultiLineString(vec![ring(&[(0, 3), (2, 3)]), ring(&[(0, 1), (2, 1)])])],
    };
    // pixel-space y of the parts is 1 and 3: rows 1 and 3
    let b = dense(&vec![g], &info, PixelFunction::Count, None, None, false);
    assert_eq!(rows_of(&b[0], 4), vec![vec![0, 0, 0, 0], vec![1, 1, 1, 0], vec![0, 0, 0, 0], vec![1, 1, 1, 0]]);
}

#[test]
fn vertical_line_ending_just_past_a_row_line() {
    // cells of 20000 units; a vertical line inside column 0 from the top down to one unit
    // (a twenty-thousandth of a cell) past the line between rows 0 and 1
    let info = grid(2, 20000);
    let short = vec![line(&[(10000, 40000), (10000, 19999)])];
    let b = dense(&short, &info, PixelFunction::Any, None, None, true);
    assert_eq!(b[0], vec![1, 0, 0, 0]);
    // three units past, more than a ten-thousandth of a cell: row 1 is reached
    let long = vec![line(&[(10000, 40000), (10000, 19997)])];
    let b = dense(&long, &info, PixelFunction::Any, None, None, true);
    assert_eq!(b[0], vec![1, 0, 1, 0]);
}
