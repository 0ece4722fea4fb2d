//! The output grid: origin, cell size and dimensions.
use vstd::prelude::*;
use crate::arith::floor_div;

verus! {

/// Bound on the magnitude of every world coordinate and cell size.
pub const COORD_LIMIT: i64 = 0x100_0000_0000;

/// Bound on the number of rows and of columns.
pub const DIM_LIMIT: usize = 0x100_0000;

/// Geometry of the output grid. Column `c` covers world x in
/// `[xmin + c * xres, xmin + (c + 1) * xres]`; row `r` covers world y in
/// `[ymax - (r + 1) * yres, ymax - r * yres]` (row 0 at the top).
#[derive(Clone, Copy, Debug, PartialEq, Eq, Structural)]
pub struct RasterInfo {
    pub ncols: usize,
    pub nrows: usize,
    pub xmin: i64,
    pub xmax: i64,
    pub ymin: i64,
    pub ymax: i64,
    pub xres: i64,
    pub yres: i64,
    pub epsg: Option<u16>,
}

/// Whether `v` lies within the coordinate bound.
pub open spec fn in_coord_range(v: int) -> bool {
    -COORD_LIMIT <= v <= COORD_LIMIT
}

impl RasterInfo {
    /// Positive cell sizes, bounded coordinates and dimensions.
    pub open spec fn wf(&self) -> bool {
        &&& 0 < self.xres <= COORD_LIMIT
        &&& 0 < self.yres <= COORD_LIMIT
        &&& in_coord_range(self.xmin as int)
        &&& in_coord_range(self.xmax as int)
        &&& in_coord_range(self.ymin as int)
        &&& in_coord_range(self.ymax as int)
        &&& self.ncols <= DIM_LIMIT
        &&& self.nrows <= DIM_LIMIT
    }

    /// Whether `(row, col)` names a pixel of the grid.
    pub open spec fn contains(&self, row: int, col: int) -> bool {
        0 <= row < self.nrows && 0 <= col < self.ncols
    }

}

/// An axis-aligned box in world coordinates.
#[derive(Clone, Copy, Debug, PartialEq, Eq, Structural)]
pub struct Bounds {
    pub xmin: i64,
    pub ymin: i64,
    pub xmax: i64,
    pub ymax: i64,
}

/// A grid description with parts left open: no extent (take the geometries' bounds),
/// a zero cell size (derive it from the shape), or zero rows (derive the shape).
#[derive(Clone, Copy, Debug, PartialEq, Eq, Structural)]
pub struct RawRasterInfo {
    pub ncols: usize,
    pub nrows: usize,
    pub extent: Option<Bounds>,
    pub xres: i64,
    pub yres: i64,
    pub with_user_extent: bool,
    pub tap: bool,
    pub epsg: Option<u16>,
}

/// Why a grid could not be derived.
#[derive(Clone, Copy, Debug, PartialEq, Eq, Structural)]
pub enum DescriptorError {
    /// No extent was given and the geometries have no coordinates.
    NoBounds,
    /// The derived grid has an empty extent, a non-positive cell size, an empty or too
    /// large shape, or coordinates out of range.
    InvalidDescriptor,
}

pub open spec fn div_ceil(a: int, b: int) -> int {
    -((-a) / b)
}

/// The smallest box holding both.
pub open spec fn merge_bounds(a: Bounds, b: Bounds) -> Bounds {
    Bounds {
        xmin: if a.xmin < b.xmin { a.xmin } else { b.xmin },
        ymin: if a.ymin < b.ymin { a.ymin } else { b.ymin },
        xmax: if a.xmax > b.xmax { a.xmax } else { b.xmax },
        ymax: if a.ymax > b.ymax { a.ymax } else { b.ymax },
    }
}

pub open spec fn merge_opt(a: Option<Bounds>, b: Option<Bounds>) -> Option<Bounds> {
    match (a, b) {
        (None, None) => None,
        (Some(x), None) => Some(x),
        (None, Some(y)) => Some(y),
        (Some(x), Some(y)) => Some(merge_bounds(x, y)),
    }
}

/// Merges two optional boxes.
pub fn bounding_rect_merge(a: Option<Bounds>, b: Option<Bounds>) -> (r: Option<Bounds>)
    ensures
        r == merge_opt(a, b),
{
    match (a, b) {
        (None, None) => None,
        (Some(x), None) => Some(x),
        (None, Some(y)) => Some(y),
        (Some(x), Some(y)) => Some(Bounds {
            xmin: if x.xmin < y.xmin { x.xmin } else { y.xmin },
            ymin: if x.ymin < y.ymin { x.ymin } else { y.ymin },
            xmax: if x.xmax > y.xmax { x.xmax } else { y.xmax },
            ymax: if x.ymax > y.ymax { x.ymax } else { y.ymax },
        }),
    }
}

/// The extent after the optional half-cell padding: when the extent was not given by the
/// user, cells are given and no target alignment is asked, it grows by half a cell on each
/// side. Coordinates are integers, so an odd cell size cannot be halved: then the lower
/// side grows by the smaller half and the upper side by the larger, and the extent still
/// grows by exactly one cell per axis.
pub open spec fn padded(raw: RawRasterInfo, b: Bounds) -> (int, int, int, int) {
    if !raw.with_user_extent && !raw.tap && raw.xres != 0 {
        (b.xmin - raw.xres / 2, b.ymin - raw.yres / 2, b.xmax + (raw.xres - raw.xres / 2), b.ymax + (raw.yres - raw.yres / 2))
    } else {
        (b.xmin as int, b.ymin as int, b.xmax as int, b.ymax as int)
    }
}

/// Cell sizes and extent: given cells snap the extent outward to their grid when aligning
/// to target; missing cells divide the extent by the shape, rounding up, and the right and
/// bottom sides then move out so that the extent holds exactly the shape's cells.
pub open spec fn resolved(raw: RawRasterInfo, b: Bounds) -> (int, int, int, int, int, int) {
    let (x0, y0, x1, y1) = padded(raw, b);
    if raw.xres == 0 {
        let xr = div_ceil(x1 - x0, raw.ncols as int);
        let yr = div_ceil(y1 - y0, raw.nrows as int);
        (x0, y1 - raw.nrows * yr, x0 + raw.ncols * xr, y1, xr, yr)
    } else if raw.tap {
        (
            (x0 / (raw.xres as int)) * raw.xres,
            (y0 / (raw.yres as int)) * raw.yres,
            div_ceil(x1, raw.xres as int) * raw.xres,
            div_ceil(y1, raw.yres as int) * raw.yres,
            raw.xres as int,
            raw.yres as int,
        )
    } else {
        (x0, y0, x1, y1, raw.xres as int, raw.yres as int)
    }
}

/// Rows and columns: given, or the extent divided by the cell size, rounded to nearest.
pub open spec fn resolved_shape(raw: RawRasterInfo, b: Bounds) -> (int, int) {
    let (x0, y0, x1, y1, xr, yr) = resolved(raw, b);
    if raw.nrows == 0 {
        ((2 * (x1 - x0) + xr) / (2 * xr), (2 * (y1 - y0) + yr) / (2 * yr))
    } else {
        (raw.ncols as int, raw.nrows as int)
    }
}

/// The grid derived from `raw` and the geometries' bounds `geo`.
pub open spec fn derived_info(raw: RawRasterInfo, geo: Option<Bounds>) -> Result<RasterInfo, DescriptorError> {
    let ext = match raw.extent {
        Some(e) => Some(e),
        None => geo,
    };
    match ext {
        None => Err(DescriptorError::NoBounds),
        Some(b) => {
            if raw.xres == 0 && (raw.ncols == 0 || raw.nrows == 0 || raw.ncols > DIM_LIMIT || raw.nrows > DIM_LIMIT) {
                Err(DescriptorError::InvalidDescriptor)
            } else if raw.xres != 0 && raw.yres <= 0 || raw.xres < 0 {
                Err(DescriptorError::InvalidDescriptor)
            } else {
                let (x0, y0, x1, y1, xr, yr) = resolved(raw, b);
                let (nc, nr) = resolved_shape(raw, b);
                let info = RasterInfo {
                    ncols: nc as usize,
                    nrows: nr as usize,
                    xmin: x0 as i64,
                    xmax: x1 as i64,
                    ymin: y0 as i64,
                    ymax: y1 as i64,
                    xres: xr as i64,
                    yres: yr as i64,
                    epsg: raw.epsg,
                };
                if 0 < xr <= COORD_LIMIT && 0 < yr <= COORD_LIMIT && in_coord_range(x0) && in_coord_range(x1) && in_coord_range(y0)
                    && in_coord_range(y1) && x0 < x1 && y0 < y1 && 0 < nc <= DIM_LIMIT && 0 < nr <= DIM_LIMIT {
                    Ok(info)
                } else {
                    Err(DescriptorError::InvalidDescriptor)
                }
            }
        },
    }
}

pub open spec fn bounds_ok(b: Bounds) -> bool {
    in_coord_range(b.xmin as int) && in_coord_range(b.ymin as int) && in_coord_range(b.xmax as int) && in_coord_range(b.ymax as int)
}

fn ceil_div(a: i128, b: i128) -> (r: i128)
    requires
        0 < b < crate::arith::DIV_LIMIT,
        -crate::arith::DIV_LIMIT < a < crate::arith::DIV_LIMIT,
    ensures
        r == div_ceil(a as int, b as int),
        a >= 0 ==> 0 <= r <= a,
        a < 0 ==> a <= r <= 0,
{
    0 - floor_div(0 - a, b)
}

fn resolve_extent(raw: RawRasterInfo, b: Bounds) -> (r: (i128, i128, i128, i128, i128, i128))
    requires
        bounds_ok(b),
        -COORD_LIMIT <= raw.xres <= COORD_LIMIT,
        -COORD_LIMIT <= raw.yres <= COORD_LIMIT,
        raw.xres == 0 ==> 0 < raw.ncols <= DIM_LIMIT && 0 < raw.nrows <= DIM_LIMIT,
        raw.xres != 0 ==> raw.xres > 0 && raw.yres > 0,
    ensures
        (r.0 as int, r.1 as int, r.2 as int, r.3 as int, r.4 as int, r.5 as int) == resolved(raw, b),
        -0x400_0000_0000_0000_0000_0000 <= r.0 <= 0x400_0000_0000_0000_0000_0000,
        -0x400_0000_0000_0000_0000_0000 <= r.1 <= 0x400_0000_0000_0000_0000_0000,
        -0x400_0000_0000_0000_0000_0000 <= r.2 <= 0x400_0000_0000_0000_0000_0000,
        -0x400_0000_0000_0000_0000_0000 <= r.3 <= 0x400_0000_0000_0000_0000_0000,
        -0x400_0000_0000_0000_0000_0000 <= r.4 <= 0x400_0000_0000_0000_0000_0000,
        -0x400_0000_0000_0000_0000_0000 <= r.5 <= 0x400_0000_0000_0000_0000_0000,
{
    let (mut x0, mut y0, mut x1, mut y1) = (b.xmin as i128, b.ymin as i128, b.xmax as i128, b.ymax as i128);
    let xres_in = raw.xres as i128;
    let yres_in = raw.yres as i128;
    if !raw.with_user_extent && !raw.tap && raw.xres != 0 {
        x0 = x0 - xres_in / 2;
        y0 = y0 - yres_in / 2;
        x1 = x1 + (xres_in - xres_in / 2);
        y1 = y1 + (yres_in - yres_in / 2);
    }
    if raw.xres == 0 {
        let xr = ceil_div(x1 - x0, raw.ncols as i128);
        let yr = ceil_div(y1 - y0, raw.nrows as i128);
        proof {
            assert(-0x1000_0000_0000_0000_0000 <= (raw.ncols as int) * xr <= 0x1000_0000_0000_0000_0000) by (nonlinear_arith)
                requires 0 < raw.ncols <= 0x100_0000, -0x400_0000_0000 <= xr <= 0x400_0000_0000;
            assert(-0x1000_0000_0000_0000_0000 <= (raw.nrows as int) * yr <= 0x1000_0000_0000_0000_0000) by (nonlinear_arith)
                requires 0 < raw.nrows <= 0x100_0000, -0x400_0000_0000 <= yr <= 0x400_0000_0000;
        }
        return (x0, y1 - (raw.nrows as i128) * yr, x0 + (raw.ncols as i128) * xr, y1, xr, yr);
    }
    if raw.tap {
        let px0 = floor_div(x0, xres_in);
        let py0 = floor_div(y0, yres_in);
        let qx = ceil_div(x1, xres_in);
        let qy = ceil_div(y1, yres_in);
        proof {
            assert(-0x400_0000_0000_0000_0000_0000 <= px0 * xres_in <= 0x400_0000_0000_0000_0000_0000) by (nonlinear_arith)
                requires -0x400_0000_0000 <= px0 <= 0x400_0000_0000, 0 < xres_in <= 0x100_0000_0000;
            assert(-0x400_0000_0000_0000_0000_0000 <= py0 * yres_in <= 0x400_0000_0000_0000_0000_0000) by (nonlinear_arith)
                requires -0x400_0000_0000 <= py0 <= 0x400_0000_0000, 0 < yres_in <= 0x100_0000_0000;
            assert(-0x400_0000_0000_0000_0000_0000 <= qx * xres_in <= 0x400_0000_0000_0000_0000_0000) by (nonlinear_arith)
                requires -0x400_0000_0000 <= qx <= 0x400_0000_0000, 0 < xres_in <= 0x100_0000_0000;
            assert(-0x400_0000_0000_0000_0000_0000 <= qy * yres_in <= 0x400_0000_0000_0000_0000_0000) by (nonlinear_arith)
                requires -0x400_0000_0000 <= qy <= 0x400_0000_0000, 0 < yres_in <= 0x100_0000_0000;
        }
        return (px0 * xres_in, py0 * yres_in, qx * xres_in, qy * yres_in, xres_in, yres_in);
    }
    (x0, y0, x1, y1, xres_in, yres_in)
}

impl RasterInfo {
    /// Pixel-centre coordinates along each axis, doubled so they stay integers: row `i`'s
    /// centre has world y `ys[i] / 2 = ymax - (i + 1/2) * yres`, column `j`'s has world x
    /// `xs[j] / 2 = xmin + (j + 1/2) * xres`.
    pub fn make_coordinates(&self) -> (r: (Vec<i128>, Vec<i128>))
        requires
            self.wf(),
        ensures
            r.0@.len() == self.nrows,
            r.1@.len() == self.ncols,
            forall|i: int| 0 <= i < self.nrows ==> #[trigger] r.0@[i] == 2 * self.ymax - (2 * i + 1) * self.yres,
            forall|j: int| 0 <= j < self.ncols ==> #[trigger] r.1@[j] == 2 * self.xmin + (2 * j + 1) * self.xres,
    {
        let mut ys: Vec<i128> = Vec::new();
        let mut i: usize = 0;
        while i < self.nrows
            invariant
                self.wf(),
                i <= self.nrows,
                ys@.len() == i,
                forall|k: int| 0 <= k < i ==> #[trigger] ys@[k] == 2 * self.ymax - (2 * k + 1) * self.yres,
            decreases self.nrows - i,
        {
            proof {
                assert(0 <= (2 * i + 1) * self.yres <= 0x200_0000 * 0x100_0000_0000) by (nonlinear_arith)
                    requires 0 <= i < 0x100_0000, 0 < self.yres <= 0x100_0000_0000;
            }
            ys.push(2 * (self.ymax as i128) - (2 * (i as i128) + 1) * (self.yres as i128));
            i = i + 1;
        }
        let mut xs: Vec<i128> = Vec::new();
        let mut j: usize = 0;
        while j < self.ncols
            invariant
                self.wf(),
                j <= self.ncols,
                xs@.len() == j,
                forall|k: int| 0 <= k < j ==> #[trigger] xs@[k] == 2 * self.xmin + (2 * k + 1) * self.xres,
            decreases self.ncols - j,
        {
            proof {
                assert(0 <= (2 * j + 1) * self.xres <= 0x200_0000 * 0x100_0000_0000) by (nonlinear_arith)
                    requires 0 <= j < 0x100_0000, 0 < self.xres <= 0x100_0000_0000;
            }
            xs.push(2 * (self.xmin as i128) + (2 * (j as i128) + 1) * (self.xres as i128));
            j = j + 1;
        }
        (ys, xs)
    }

    /// `bands` row-major bands of `nrows x ncols` cells, each `background`.
    pub fn build_raster(&self, bands: usize, background: i64) -> (r: Vec<Vec<i64>>)
        requires
            self.wf(),
            self.nrows * self.ncols * 8 <= isize::MAX,
        ensures
            r@.len() == bands,
            forall|b: int| 0 <= b < bands ==> (#[trigger] r@[b])@ == Seq::new((self.nrows * self.ncols) as nat, |i: int| background),
    {
        let mut out: Vec<Vec<i64>> = Vec::new();
        let mut b: usize = 0;
        while b < bands
            invariant
                self.wf(),
                self.nrows * self.ncols * 8 <= isize::MAX,
                b <= bands,
                out@.len() == b,
                forall|k: int| 0 <= k < b ==> (#[trigger] out@[k])@ == Seq::new((self.nrows * self.ncols) as nat, |i: int| background),
            decreases bands - b,
        {
            out.push(crate::band::Band::filled(self.nrows, self.ncols, background).into_vec());
            b = b + 1;
        }
        out
    }

    /// Resolves the open parts of `raw`; `geo` is the geometries' bounding box, used when
    /// no extent is given.
    pub fn from(raw: RawRasterInfo, geo: Option<Bounds>) -> (r: Result<RasterInfo, DescriptorError>)
        requires
            raw.extent matches Some(e) ==> bounds_ok(e),
            geo matches Some(g) ==> bounds_ok(g),
            -COORD_LIMIT <= raw.xres <= COORD_LIMIT,
            -COORD_LIMIT <= raw.yres <= COORD_LIMIT,
        ensures
            r == derived_info(raw, geo),
            r matches Ok(info) ==> info.wf() && info.xmin < info.xmax && info.ymin < info.ymax && info.ncols > 0 && info.nrows > 0,
    {
        let ext = match raw.extent {
            Some(e) => Some(e),
            None => geo,
        };
        let b = match ext {
            None => {
                return Err(DescriptorError::NoBounds);
            },
            Some(b) => b,
        };
        if raw.xres == 0 && (raw.ncols == 0 || raw.nrows == 0 || raw.ncols > DIM_LIMIT || raw.nrows > DIM_LIMIT) {
            return Err(DescriptorError::InvalidDescriptor);
        }
        if raw.xres != 0 && raw.yres <= 0 || raw.xres < 0 {
            return Err(DescriptorError::InvalidDescriptor);
        }
        let (x0, y0, x1, y1, xr, yr) = resolve_extent(raw, b);
        let lim = COORD_LIMIT as i128;
        if !(0 < xr && xr <= lim && 0 < yr && yr <= lim) {
            return Err(DescriptorError::InvalidDescriptor);
        }
        if !(-lim <= x0 && x0 <= lim && -lim <= x1 && x1 <= lim && -lim <= y0 && y0 <= lim && -lim <= y1 && y1 <= lim) {
            return Err(DescriptorError::InvalidDescriptor);
        }
        let (nc, nr) = if raw.nrows == 0 {
            (floor_div(2 * (x1 - x0) + xr, 2 * xr), floor_div(2 * (y1 - y0) + yr, 2 * yr))
        } else {
            (raw.ncols as i128, raw.nrows as i128)
        };
        if !(x0 < x1 && y0 < y1 && 0 < nc && nc <= DIM_LIMIT as i128 && 0 < nr && nr <= DIM_LIMIT as i128) {
            return Err(DescriptorError::InvalidDescriptor);
        }
        Ok(RasterInfo {
            ncols: nc as usize,
            nrows: nr as usize,
            xmin: x0 as i64,
            xmax: x1 as i64,
            ymin: y0 as i64,
            ymax: y1 as i64,
            xres: xr as i64,
            yres: yr as i64,
            epsg: raw.epsg,
        })
    }
}

} // verus!
