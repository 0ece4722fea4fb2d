use rusterize::bounds::bounding_rect;
use rusterize::geometry::{Coord, Geometry, LineString, Part, Polygon};
use rusterize::pixel_functions::PixelFunction;
use rusterize::raster::{bounding_rect_merge, Bounds, DescriptorError, RasterInfo, RawRasterInfo};
use rusterize::rusterize_impl::{rasterize_sparse, RasterizeError};
use rusterize::validate::validate_geometries;

fn square(x0: i64, y0: i64, x1: i64, y1: i64) -> Geometry {
    let coords = vec![Coord { x: x0, y: y0 }, Coord { x: x1, y: y0 }, Coord { x: x1, y: y1 }, Coord { x: x0, y: y1 }, Coord { x: x0, y: y0 }];
    Geometry { parts: vec![Part::Polygon(Polygon { exterior: LineString { coords }, interiors: vec![] })] }
}

fn raw(ncols: usize, nrows: usize, extent: Option<Bounds>, xres: i64, yres: i64, user: bool, tap: bool) -> RawRasterInfo {
    RawRasterInfo { ncols, nrows, extent, xres, yres, with_user_extent: user, tap, epsg: Some(4326) }
}

#[test]
fn shape_and_extent_give_resolution() {
    let b = Bounds { xmin: 0, ymin: 0, xmax: 10, ymax: 4 };
    let info = RasterInfo::from(raw(5, 2, Some(b), 0, 0, true, false), None).unwrap();
    assert_eq!((info.xres, info.yres, info.ncols, info.nrows), (2, 2, 5, 2));
    assert_eq!(info.epsg, Some(4326));
}

#[test]
fn resolution_rounds_up() {
    let b = Bounds { xmin: 0, ymin: 0, xmax: 10, ymax: 10 };
    let info = RasterInfo::from(raw(3, 3, Some(b), 0, 0, true, false), None).unwrap();
    assert_eq!((info.xres, info.yres), (4, 4));
    // the right and bottom sides move out to hold three whole cells
    assert_eq!((info.xmin, info.xmax, info.ymin, info.ymax), (0, 12, -2, 10));
}

#[test]
fn resolution_and_extent_give_shape() {
    let b = Bounds { xmin: 0, ymin: 0, xmax: 10, ymax: 7 };
    let info = RasterInfo::from(raw(0, 0, Some(b), 2, 2, true, false), None).unwrap();
    // 10 / 2 = 5 columns; 7 / 2 = 3.5 rounds to 4 rows
    assert_eq!((info.ncols, info.nrows), (5, 4));
}

#[test]
fn implicit_extent_is_padded_by_half_a_cell() {
    let geo = Some(Bounds { xmin: 0, ymin: 0, xmax: 10, ymax: 10 });
    let info = RasterInfo::from(raw(0, 0, None, 2, 2, false, false), geo).unwrap();
    assert_eq!((info.xmin, info.ymin, info.xmax, info.ymax), (-1, -1, 11, 11));
    assert_eq!((info.ncols, info.nrows), (6, 6));
}

#[test]
fn target_alignment_snaps_outward() {
    let geo = Some(Bounds { xmin: 1, ymin: -3, xmax: 9, ymax: 5 });
    let info = RasterInfo::from(raw(0, 0, None, 4, 4, false, true), geo).unwrap();
    assert_eq!((info.xmin, info.ymin, info.xmax, info.ymax), (0, -4, 12, 8));
    assert_eq!((info.ncols, info.nrows), (3, 3));
}

#[test]
fn missing_bounds_is_an_error() {
    assert_eq!(RasterInfo::from(raw(2, 2, None, 0, 0, false, false), None), Err(DescriptorError::NoBounds));
}

#[test]
fn bad_resolution_is_an_error() {
    let b = Bounds { xmin: 0, ymin: 0, xmax: 10, ymax: 10 };
    assert_eq!(RasterInfo::from(raw(0, 0, Some(b), -2, 2, true, false), None), Err(DescriptorError::InvalidDescriptor));
    assert_eq!(RasterInfo::from(raw(0, 0, Some(b), 0, 0, true, false), None), Err(DescriptorError::InvalidDescriptor));
}

#[test]
fn bounds_of_geometries() {
    let geoms = vec![square(1, 2, 3, 4), square(-5, 0, 0, 1)];
    assert_eq!(bounding_rect(&geoms), Some(Bounds { xmin: -5, ymin: 0, xmax: 3, ymax: 4 }));
    let none: Vec<Geometry> = vec![Geometry { parts: vec![] }];
    assert_eq!(bounding_rect(&none), None);
    assert_eq!(bounding_rect_merge(None, Some(Bounds { xmin: 1, ymin: 1, xmax: 2, ymax: 2 })), Some(Bounds { xmin: 1, ymin: 1, xmax: 2, ymax: 2 }));
}

#[test]
fn axis_coordinates_are_pixel_centres() {
    let info = RasterInfo { ncols: 3, nrows: 2, xmin: 10, xmax: 16, ymin: 0, ymax: 4, xres: 2, yres: 2, epsg: None };
    let (ys, xs) = info.make_coordinates();
    // doubled: y centres 3 and 1, x centres 11, 13, 15
    assert_eq!(ys, vec![6, 2]);
    assert_eq!(xs, vec![22, 26, 30]);
}

#[test]
fn background_raster() {
    let info = RasterInfo { ncols: 3, nrows: 2, xmin: 0, xmax: 3, ymin: 0, ymax: 2, xres: 1, yres: 1, epsg: None };
    assert_eq!(info.build_raster(2, -9), vec![vec![-9; 6], vec![-9; 6]]);
}

#[test]
fn unsupported_geometries_are_dropped_with_their_rows() {
    let geoms = vec![Some(square(0, 0, 1, 1)), None, Some(square(1, 1, 2, 2))];
    let v = validate_geometries(geoms, Some(vec![Some(1), Some(2), None]), Some(vec!["a".into(), "b".into(), "c".into()])).unwrap();
    assert_eq!(v.geoms.len(), 2);
    assert_eq!(v.dropped, 1);
    assert_eq!(v.field, Some(vec![Some(1), None]));
    assert_eq!(v.by, Some(vec!["a".to_string(), "c".to_string()]));
    assert!(validate_geometries(vec![None, None], None, None).is_err());
}

#[test]
fn tabular_sparse_output() {
    let info = RasterInfo { ncols: 2, nrows: 2, xmin: 0, xmax: 2, ymin: 0, ymax: 2, xres: 1, yres: 1, epsg: None };
    let geoms = vec![square(0, 1, 1, 2), square(1, 0, 2, 1)];
    let s = rasterize_sparse(&geoms, &info, PixelFunction::Sum, 0, None, Some(vec!["x".into(), "y".into()]), 7, false).unwrap();
    assert_eq!(s.lengths, vec![1, 1]);
    let (band, rows, cols, data) = s.to_tabular();
    assert_eq!(band, Some(vec![1, 2]));
    assert_eq!(rows, vec![0, 1]);
    assert_eq!(cols, vec![0, 1]);
    assert_eq!(data, vec![7, 7]);
    let single = rasterize_sparse(&geoms, &info, PixelFunction::Sum, 0, None, None, 7, false).unwrap();
    assert_eq!(single.to_tabular().0, None);
    let empty: Vec<Geometry> = vec![];
    assert!(matches!(rasterize_sparse(&empty, &info, PixelFunction::Sum, 0, None, None, 7, false), Err(RasterizeError::NoGeometries)));
}

#[test]
fn empty_extent_is_an_error() {
    let flat = Bounds { xmin: 0, ymin: 0, xmax: 0, ymax: 10 };
    assert_eq!(RasterInfo::from(raw(0, 0, Some(flat), 1, 1, true, false), None), Err(DescriptorError::InvalidDescriptor));
    assert_eq!(RasterInfo::from(raw(2, 2, Some(flat), 0, 0, true, false), None), Err(DescriptorError::InvalidDescriptor));
}

#[test]
fn odd_cell_padding_puts_the_larger_half_above() {
    let geo = Some(Bounds { xmin: 0, ymin: 0, xmax: 10, ymax: 10 });
    let info = RasterInfo::from(raw(0, 0, None, 3, 3, false, false), geo).unwrap();
    assert_eq!((info.xmin, info.xmax, info.ymin, info.ymax), (-1, 12, -1, 12));
    assert_eq!((info.ncols, info.nrows), (4, 4));
}
