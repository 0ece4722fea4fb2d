//! The driver: per-geometry values, grouping into bands, and the dense and sparse outputs.
use vstd::prelude::*;
use crate::geometry::Geometry;
use crate::pixel_functions::PixelFunction;
use crate::raster::RasterInfo;
use crate::burn_geometry::geometry_hits;
use crate::emit::{count_at, iterate};
use crate::rasterize_geometry::rasterize_geometry;
use crate::writers::{cell, lemma_cell_bound, replay, triplets, DenseArrayWriter, Emission, PixelWriter, SparseArrayWriter};

verus! {

/// Why a rasterization could not run.
#[derive(Clone, Copy, Debug, PartialEq, Eq, Structural)]
pub enum RasterizeError {
    /// There is nothing to rasterize.
    NoGeometries,
    /// One band of the grid has more cells than an array can index.
    RasterTooLarge,
}

/// Content of the cell at `p`, holding `cell`, after burning in order the rows `i < k`
/// that `member` selects and whose field holds a value (rows with no value are skipped).
pub open spec fn band_effect(
    f: PixelFunction,
    bg: i64,
    cell: i64,
    geoms: Seq<Geometry>,
    fields: Seq<Option<i64>>,
    member: Seq<bool>,
    info: RasterInfo,
    all_touched: bool,
    p: (int, int),
    k: int,
) -> i64
    decreases k,
{
    if k <= 0 {
        cell
    } else {
        let prev = band_effect(f, bg, cell, geoms, fields, member, info, all_touched, p, k - 1);
        if member[k - 1] && fields[k - 1] is Some {
            iterate(f, bg, prev, fields[k - 1].unwrap(), geometry_hits(geoms[k - 1], info, all_touched, p))
        } else {
            prev
        }
    }
}

/// `run` is the raw writes of burning one geometry with `v`: every write carries `v`, and
/// each pixel is written as often as the geometry hits it.
pub open spec fn geometry_run(run: Seq<Emission>, g: Geometry, info: RasterInfo, all_touched: bool, v: i64) -> bool {
    &&& forall|i: int| 0 <= i < run.len() ==> (#[trigger] run[i]).value == v
    &&& forall|p: (int, int)| #[trigger] count_at(run, p) == geometry_hits(g, info, all_touched, p)
}

/// `a` is, in row order, one raw run per row `i < k` that `member` selects and whose
/// field holds a value, with nothing reduced or merged.
pub open spec fn row_runs(
    a: Seq<Emission>,
    geoms: Seq<Geometry>,
    fields: Seq<Option<i64>>,
    member: Seq<bool>,
    info: RasterInfo,
    all_touched: bool,
    k: int,
) -> bool
    decreases k,
{
    if k <= 0 {
        a.len() == 0
    } else if member[k - 1] && fields[k - 1] is Some {
        exists|j: int|
            0 <= j <= a.len() && row_runs(a.take(j), geoms, fields, member, info, all_touched, k - 1) && geometry_run(
                #[trigger] a.skip(j),
                geoms[k - 1],
                info,
                all_touched,
                fields[k - 1].unwrap(),
            )
    } else {
        row_runs(a, geoms, fields, member, info, all_touched, k - 1)
    }
}

/// The field column: the given one, or `burn_value` for every geometry.
pub open spec fn resolved_field(field: Option<Seq<Option<i64>>>, burn_value: i64, n: nat) -> Seq<Option<i64>> {
    match field {
        Some(v) => v,
        None => Seq::new(n, |i: int| Some(burn_value)),
    }
}

/// Distinct values of the first `k` entries, in order of first occurrence.
pub open spec fn first_seen(s: Seq<Seq<char>>, k: int) -> Seq<Seq<char>>
    decreases k,
{
    if k <= 0 {
        Seq::empty()
    } else {
        let prev = first_seen(s, k - 1);
        if prev.contains(s[k - 1]) {
            prev
        } else {
            prev.push(s[k - 1])
        }
    }
}

pub open spec fn views(v: Seq<String>) -> Seq<Seq<char>> {
    v.map_values(|s: String| s@)
}

/// Rows whose group key equals `key`.
pub open spec fn members_of(by: Seq<Seq<char>>, key: Seq<char>) -> Seq<bool> {
    Seq::new(by.len(), |i: int| by[i] == key)
}

/// Every row.
pub open spec fn all_rows(n: nat) -> Seq<bool> {
    Seq::new(n, |i: int| true)
}

/// The bands: one of all rows without grouping, else one per key in first-seen order.
pub open spec fn band_members(by: Option<Seq<String>>, n: nat) -> Seq<Seq<bool>> {
    match by {
        None => seq![all_rows(n)],
        Some(b) => first_seen(views(b), b.len() as int).map_values(|key: Seq<char>| members_of(views(b), key)),
    }
}

/// The band names: `band_1` without grouping, else the keys in first-seen order.
pub open spec fn band_names_of(by: Option<Seq<String>>) -> Seq<Seq<char>> {
    match by {
        None => seq!["band_1"@],
        Some(b) => first_seen(views(b), b.len() as int),
    }
}

/// The inputs a rasterization can run on.
pub open spec fn inputs_ok(geoms: Seq<Geometry>, info: RasterInfo, field: Option<Seq<Option<i64>>>, by: Option<Seq<String>>) -> bool {
    &&& info.wf()
    &&& forall|i: int| 0 <= i < geoms.len() ==> (#[trigger] geoms[i]).wf()
    &&& (field matches Some(f) ==> f.len() == geoms.len())
    &&& (by matches Some(b) ==> b.len() == geoms.len())
}

/// Burns, in order, every selected geometry that has a field value.
fn process_band<W: PixelWriter>(
    geoms: &Vec<Geometry>,
    fields: &Vec<Option<i64>>,
    member: &Vec<bool>,
    info: &RasterInfo,
    background: i64,
    all_touched: bool,
    writer: W,
) -> (w: W)
    requires
        info.wf(),
        forall|i: int| 0 <= i < geoms@.len() ==> (#[trigger] geoms@[i]).wf(),
        fields@.len() == geoms@.len(),
        member@.len() == geoms@.len(),
        writer.inv(),
        forall|r: int, c: int| info.contains(r, c) ==> #[trigger] writer.accepts(r, c, background),
    ensures
        w.inv(),
        w.frame() == writer.frame(),
        writer.received().len() <= w.received().len(),
        w.received().subrange(0, writer.received().len() as int) == writer.received(),
        forall|f: PixelFunction, bg: i64, init: i64, r: int, c: int|
            #[trigger] replay(f, bg, init, w.received(), r, c) == band_effect(
                f,
                bg,
                replay(f, bg, init, writer.received(), r, c),
                geoms@,
                fields@,
                member@,
                *info,
                all_touched,
                (r, c),
                geoms@.len() as int,
            ),
        row_runs(w.received().skip(writer.received().len() as int), geoms@, fields@, member@, *info, all_touched, geoms@.len() as int),
{
    let ghost base = writer.received();
    let mut w = writer;
    let mut i: usize = 0;
    proof {
        assert(base.subrange(0, base.len() as int) =~= base);
        assert(w.received().skip(base.len() as int).len() == 0);
    }
    while i < geoms.len()
        invariant
            info.wf(),
            forall|j: int| 0 <= j < geoms@.len() ==> (#[trigger] geoms@[j]).wf(),
            fields@.len() == geoms@.len(),
            member@.len() == geoms@.len(),
            i <= geoms@.len(),
            w.inv(),
            w.frame() == writer.frame(),
            forall|r: int, c: int, b: i64| #[trigger] w.accepts(r, c, b) == writer.accepts(r, c, b),
            forall|r: int, c: int| info.contains(r, c) ==> #[trigger] writer.accepts(r, c, background),
            base.len() <= w.received().len(),
            w.received().subrange(0, base.len() as int) == base,
            forall|f: PixelFunction, bg: i64, init: i64, r: int, c: int|
                #[trigger] replay(f, bg, init, w.received(), r, c) == band_effect(
                    f,
                    bg,
                    replay(f, bg, init, base, r, c),
                    geoms@,
                    fields@,
                    member@,
                    *info,
                    all_touched,
                    (r, c),
                    i as int,
                ),
            row_runs(w.received().skip(base.len() as int), geoms@, fields@, member@, *info, all_touched, i as int),
        decreases geoms@.len() - i,
    {
        if member[i] {
            match fields[i] {
                Some(v) => {
                    let ghost mid = w.received();
                    assert(geoms@[i as int].wf());
                    w = rasterize_geometry(&geoms[i], info, v, w, background, all_touched);
                    proof {
                        let a0 = mid.skip(base.len() as int);
                        let a1 = w.received().skip(base.len() as int);
                        let run = w.received().skip(mid.len() as int);
                        let j = a0.len() as int;
                        assert(a1.take(j) =~= a0);
                        assert(a1.skip(j) =~= run);
                        assert forall|k: int| 0 <= k < run.len() implies (#[trigger] run[k]).value == v by {
                            assert(run[k] == w.received()[k + mid.len()]);
                        }
                        assert(geometry_run(a1.skip(j), geoms@[i as int], *info, all_touched, v));
                        assert(row_runs(a1, geoms@, fields@, member@, *info, all_touched, i + 1));
                        assert(w.received().subrange(0, base.len() as int) =~= mid.subrange(0, base.len() as int));
                        assert forall|f: PixelFunction, bg: i64, init: i64, r: int, c: int|
                            #[trigger] replay(f, bg, init, w.received(), r, c) == band_effect(
                                f,
                                bg,
                                replay(f, bg, init, base, r, c),
                                geoms@,
                                fields@,
                                member@,
                                *info,
                                all_touched,
                                (r, c),
                                i + 1,
                            ) by {
                            assert(replay(f, bg, init, mid, r, c) == band_effect(f, bg, replay(f, bg, init, base, r, c), geoms@, fields@, member@, *info, all_touched, (r, c), i as int));
                        }
                    }
                },
                None => {},
            }
        }
        i = i + 1;
    }
    w
}

/// Burns one dense band: the result's cells are `band_effect` from `background`. Bands are
/// independent, so callers may burn several at once.
pub fn dense_band(
    geoms: &Vec<Geometry>,
    fields: &Vec<Option<i64>>,
    member: &Vec<bool>,
    info: &RasterInfo,
    pxfn: PixelFunction,
    background: i64,
    all_touched: bool,
) -> (band: Vec<i64>)
    requires
        info.wf(),
        info.nrows * info.ncols * 8 <= isize::MAX,
        forall|i: int| 0 <= i < geoms@.len() ==> (#[trigger] geoms@[i]).wf(),
        fields@.len() == geoms@.len(),
        member@.len() == geoms@.len(),
    ensures
        band@.len() == info.nrows * info.ncols,
        forall|r: int, c: int|
            0 <= r < info.nrows && 0 <= c < info.ncols ==> #[trigger] band@[cell(r, c, info.ncols as int)] == band_effect(
                pxfn,
                background,
                background,
                geoms@,
                fields@,
                member@,
                *info,
                all_touched,
                (r, c),
                geoms@.len() as int,
            ),
{
    let writer = DenseArrayWriter::new(info.nrows, info.ncols, pxfn, background);
    let w = process_band(geoms, fields, member, info, background, all_touched, writer);
    proof {
        assert(w.received().subrange(0, 0) =~= Seq::<Emission>::empty());
    }
    let out = w.into_band();
    proof {
        assert forall|r: int, c: int| 0 <= r < info.nrows && 0 <= c < info.ncols implies #[trigger] out@[cell(r, c, info.ncols as int)] == band_effect(
            pxfn,
            background,
            background,
            geoms@,
            fields@,
            member@,
            *info,
            all_touched,
            (r, c),
            geoms@.len() as int,
        ) by {
            lemma_cell_bound(r, c, info.nrows as int, info.ncols as int);
            assert(replay(pxfn, background, background, Seq::<Emission>::empty(), r, c) == background);
        }
    }
    out
}

proof fn lemma_first_seen_step(s: Seq<Seq<char>>, k: int)
    requires
        0 <= k < s.len(),
    ensures
        first_seen(s, k + 1) == if first_seen(s, k).contains(s[k]) { first_seen(s, k) } else { first_seen(s, k).push(s[k]) },
{
}

/// The distinct keys of `by`, in order of first occurrence.
pub fn get_groups(by: &Vec<String>) -> (keys: Vec<String>)
    ensures
        views(keys@) == first_seen(views(by@), by@.len() as int),
{
    let mut keys: Vec<String> = Vec::new();
    let mut i: usize = 0;
    assert(views(keys@) =~= first_seen(views(by@), 0));
    while i < by.len()
        invariant
            i <= by@.len(),
            views(keys@) == first_seen(views(by@), i as int),
        decreases by@.len() - i,
    {
        let ghost fs = first_seen(views(by@), i as int);
        let mut g: usize = 0;
        let mut found = false;
        while g < keys.len()
            invariant
                g <= keys@.len(),
                views(keys@) == fs,
                i < by@.len(),
                found ==> fs.contains(by@[i as int]@),
                !found ==> forall|j: int| 0 <= j < g ==> keys@[j]@ != by@[i as int]@,
            decreases keys@.len() - g,
        {
            if by[i] == keys[g] {
                found = true;
                assert(fs[g as int] == keys@[g as int]@);
            }
            g = g + 1;
        }
        proof {
            lemma_first_seen_step(views(by@), i as int);
            assert(views(by@)[i as int] == by@[i as int]@);
        }
        if !found {
            proof {
                assert forall|j: int| 0 <= j < fs.len() implies fs[j] != by@[i as int]@ by {
                    assert(fs[j] == keys@[j]@);
                }
            }
            keys.push(by[i].clone());
            proof {
                assert(views(keys@) =~= fs.push(by@[i as int]@));
            }
        }
        i = i + 1;
    }
    keys
}

/// The field column in use: `field`, or `burn_value` for each of `n` geometries.
pub fn resolve_field(field: Option<Vec<Option<i64>>>, burn_value: i64, n: usize) -> (r: Vec<Option<i64>>)
    ensures
        r@ == resolved_field(
            match field {
                Some(v) => Some(v@),
                None => None,
            },
            burn_value,
            n as nat,
        ),
{
    match field {
        Some(v) => v,
        None => {
            let mut r: Vec<Option<i64>> = Vec::new();
            let mut i: usize = 0;
            while i < n
                invariant
                    i <= n,
                    r@ =~= Seq::new(i as nat, |j: int| Some(burn_value)),
                decreases n - i,
            {
                r.push(Some(burn_value));
                i = i + 1;
            }
            r
        },
    }
}

/// Which rows belong to the band of `key`.
fn members(by: &Vec<String>, key: &String) -> (m: Vec<bool>)
    ensures
        m@ == members_of(views(by@), key@),
{
    let mut m: Vec<bool> = Vec::new();
    let mut i: usize = 0;
    while i < by.len()
        invariant
            i <= by@.len(),
            m@ =~= Seq::new(i as nat, |j: int| views(by@)[j] == key@),
        decreases by@.len() - i,
    {
        m.push(by[i] == *key);
        i = i + 1;
    }
    m
}

fn every_row(n: usize) -> (m: Vec<bool>)
    ensures
        m@ == all_rows(n as nat),
{
    let mut m: Vec<bool> = Vec::new();
    let mut i: usize = 0;
    while i < n
        invariant
            i <= n,
            m@ =~= Seq::new(i as nat, |j: int| true),
        decreases n - i,
    {
        m.push(true);
        i = i + 1;
    }
    m
}

/// The rows of each band and the band names.
pub fn bands_of(by: &Option<Vec<String>>, n: usize) -> (r: (Vec<Vec<bool>>, Vec<String>))
    requires
        by matches Some(b) ==> b@.len() == n,
    ensures
        r.0@.len() == band_members(opt_view(*by), n as nat).len(),
        forall|b: int| 0 <= b < r.0@.len() ==> (#[trigger] r.0@[b])@ == band_members(opt_view(*by), n as nat)[b],
        views(r.1@) == band_names_of(opt_view(*by)),
{
    match by {
        None => {
            let mut names: Vec<String> = Vec::new();
            names.push("band_1".to_owned());
            let mut ms: Vec<Vec<bool>> = Vec::new();
            ms.push(every_row(n));
            assert(views(names@) =~= seq!["band_1"@]);
            (ms, names)
        },
        Some(b) => {
            let keys = get_groups(b);
            let ghost fs = first_seen(views(b@), b@.len() as int);
            let mut ms: Vec<Vec<bool>> = Vec::new();
            let mut g: usize = 0;
            while g < keys.len()
                invariant
                    views(keys@) == fs,
                    g <= keys@.len(),
                    ms@.len() == g,
                    forall|j: int| 0 <= j < g ==> (#[trigger] ms@[j])@ == members_of(views(b@), fs[j]),
                decreases keys@.len() - g,
            {
                let m = members(b, &keys[g]);
                assert(fs[g as int] == keys@[g as int]@);
                ms.push(m);
                g = g + 1;
            }
            (ms, keys)
        },
    }
}

pub open spec fn opt_view(by: Option<Vec<String>>) -> Option<Seq<String>> {
    match by {
        Some(b) => Some(b@),
        None => None,
    }
}

pub open spec fn opt_field(field: Option<Vec<Option<i64>>>) -> Option<Seq<Option<i64>>> {
    match field {
        Some(v) => Some(v@),
        None => None,
    }
}

/// Dense output: one row-major band per group, the band names, and the grid.
pub struct DenseArray {
    pub bands: Vec<Vec<i64>>,
    pub band_names: Vec<String>,
    pub raster_info: RasterInfo,
}

impl DenseArray {
    pub fn new(bands: Vec<Vec<i64>>, band_names: Vec<String>, raster_info: RasterInfo) -> (d: DenseArray)
        ensures
            d.bands == bands,
            d.band_names == band_names,
            d.raster_info == raster_info,
    {
        DenseArray { bands, band_names, raster_info }
    }
}

/// The value a dense rasterization leaves in band `b` at `(r, c)`.
pub open spec fn expected_cell(
    geoms: Seq<Geometry>,
    info: RasterInfo,
    pxfn: PixelFunction,
    background: i64,
    field: Option<Seq<Option<i64>>>,
    by: Option<Seq<String>>,
    burn_value: i64,
    all_touched: bool,
    b: int,
    r: int,
    c: int,
) -> i64 {
    band_effect(
        pxfn,
        background,
        background,
        geoms,
        resolved_field(field, burn_value, geoms.len()),
        band_members(by, geoms.len())[b],
        info,
        all_touched,
        (r, c),
        geoms.len() as int,
    )
}

/// What a dense rasterization of these inputs returns: the grid, the band names, and in
/// each band every cell's `expected_cell`.
pub open spec fn dense_result(
    d: DenseArray,
    geoms: Seq<Geometry>,
    info: RasterInfo,
    pxfn: PixelFunction,
    background: i64,
    field: Option<Seq<Option<i64>>>,
    by: Option<Seq<String>>,
    burn_value: i64,
    all_touched: bool,
) -> bool {
    &&& d.raster_info == info
    &&& views(d.band_names@) == band_names_of(by)
    &&& d.bands@.len() == band_members(by, geoms.len()).len()
    &&& forall|b: int| 0 <= b < d.bands@.len() ==> (#[trigger] d.bands@[b])@.len() == info.nrows * info.ncols
    &&& forall|b: int, r: int, c: int|
        0 <= b < d.bands@.len() && 0 <= r < info.nrows && 0 <= c < info.ncols ==> #[trigger] d.bands@[b]@[cell(r, c, info.ncols as int)]
            == expected_cell(geoms, info, pxfn, background, field, by, burn_value, all_touched, b, r, c)
}

/// What a sparse rasterization of these inputs returns: well-formed triplets whose block for
/// each band holds, in row order, the raw writes of each of that band's geometries (nothing
/// reduced), so that replaying it through any reducer from any cell burns those geometries.
pub open spec fn sparse_result(
    s: SparseArray,
    geoms: Seq<Geometry>,
    info: RasterInfo,
    pxfn: PixelFunction,
    background: i64,
    field: Option<Seq<Option<i64>>>,
    by: Option<Seq<String>>,
    burn_value: i64,
    all_touched: bool,
) -> bool {
    &&& s.wf()
    &&& s.raster_info == info
    &&& s.pxfn == pxfn
    &&& s.background == background
    &&& views(s.band_names@) == band_names_of(by)
    &&& s.lengths@.len() == band_members(by, geoms.len()).len()
    &&& forall|b: int, f: PixelFunction, bg: i64, init: i64, r: int, c: int|
        0 <= b < s.lengths@.len() ==> #[trigger] replay(f, bg, init, s.block(b), r, c) == band_effect(
            f,
            bg,
            init,
            geoms,
            resolved_field(field, burn_value, geoms.len()),
            band_members(by, geoms.len())[b],
            info,
            all_touched,
            (r, c),
            geoms.len() as int,
        )
    &&& forall|b: int|
        0 <= b < s.lengths@.len() ==> row_runs(
            #[trigger] s.block(b),
            geoms,
            resolved_field(field, burn_value, geoms.len()),
            band_members(by, geoms.len())[b],
            info,
            all_touched,
            geoms.len() as int,
        )
}

/// Rasterizes `geoms` into dense bands. Each geometry is burnt with its field value
/// (or `burn_value` when no field column is given); geometries whose value is missing
/// are skipped. With `by`, there is one band per distinct key, in first-seen order,
/// holding the geometries of that key.
pub fn rasterize_dense(
    geoms: &Vec<Geometry>,
    info: &RasterInfo,
    pxfn: PixelFunction,
    background: i64,
    field: Option<Vec<Option<i64>>>,
    by: Option<Vec<String>>,
    burn_value: i64,
    all_touched: bool,
) -> (r: Result<DenseArray, RasterizeError>)
    requires
        inputs_ok(geoms@, *info, opt_field(field), opt_view(by)),
    ensures
        r == Err::<DenseArray, RasterizeError>(RasterizeError::NoGeometries) <==> geoms@.len() == 0,
        r == Err::<DenseArray, RasterizeError>(RasterizeError::RasterTooLarge) <==> geoms@.len() > 0 && info.nrows * info.ncols * 8 > isize::MAX,
        r matches Ok(d) ==> dense_result(d, geoms@, *info, pxfn, background, opt_field(field), opt_view(by), burn_value, all_touched),
{
    let n = geoms.len();
    if n == 0 {
        return Err(RasterizeError::NoGeometries);
    }
    proof {
        assert(info.nrows * info.ncols <= 0x100_0000 * 0x100_0000) by (nonlinear_arith)
            requires info.nrows <= 0x100_0000, info.ncols <= 0x100_0000;
    }
    if (info.nrows as u128) * (info.ncols as u128) * 8 > isize::MAX as u128 {
        return Err(RasterizeError::RasterTooLarge);
    }
    let ghost fv = opt_field(field);
    let fields = resolve_field(field, burn_value, n);
    let (ms, names) = bands_of(&by, n);
    let mut bands: Vec<Vec<i64>> = Vec::new();
    let mut b: usize = 0;
    while b < ms.len()
        invariant
            inputs_ok(geoms@, *info, fv, opt_view(by)),
            info.nrows * info.ncols * 8 <= isize::MAX,
            n == geoms@.len(),
            fields@ == resolved_field(fv, burn_value, n as nat),
            ms@.len() == band_members(opt_view(by), n as nat).len(),
            forall|j: int| 0 <= j < ms@.len() ==> (#[trigger] ms@[j])@ == band_members(opt_view(by), n as nat)[j],
            b <= ms@.len(),
            bands@.len() == b,
            forall|j: int| 0 <= j < b ==> (#[trigger] bands@[j])@.len() == info.nrows * info.ncols,
            forall|j: int, r: int, c: int|
                0 <= j < b && 0 <= r < info.nrows && 0 <= c < info.ncols ==> #[trigger] bands@[j]@[cell(r, c, info.ncols as int)]
                    == expected_cell(geoms@, *info, pxfn, background, fv, opt_view(by), burn_value, all_touched, j, r, c),
        decreases ms@.len() - b,
    {
        proof {
            assert(band_members(opt_view(by), n as nat)[b as int].len() == n) by {
                match opt_view(by) {
                    None => {},
                    Some(bv) => {
                        let fs = first_seen(views(bv), bv.len() as int);
                        assert(band_members(opt_view(by), n as nat)[b as int] == members_of(views(bv), fs[b as int]));
                    },
                }
            }
        }
        let band = dense_band(geoms, &fields, &ms[b], info, pxfn, background, all_touched);
        bands.push(band);
        b = b + 1;
    }
    Ok(DenseArray::new(bands, names, *info))
}

/// Start of band `b`'s block: the sum of the first `b` lengths.
pub open spec fn offset(lengths: Seq<usize>, b: int) -> int
    decreases b,
{
    if b <= 0 {
        0
    } else {
        offset(lengths, b - 1) + lengths[b - 1]
    }
}

/// Sparse output: every band's raw writes as `(row, col, value)` triplets, stored band
/// after band, with each band's block length; replaying a block through the reducer
/// gives the band.
pub struct SparseArray {
    pub band_names: Vec<String>,
    pub rows: Vec<usize>,
    pub cols: Vec<usize>,
    pub data: Vec<i64>,
    pub lengths: Vec<usize>,
    pub raster_info: RasterInfo,
    pub pxfn: PixelFunction,
    pub background: i64,
}

impl SparseArray {
    /// The three vectors are parallel and the lengths add up to their length.
    pub open spec fn wf(&self) -> bool {
        &&& self.rows@.len() == self.data@.len()
        &&& self.cols@.len() == self.data@.len()
        &&& offset(self.lengths@, self.lengths@.len() as int) == self.data@.len()
    }

    /// The writes of band `b`.
    pub open spec fn block(&self, b: int) -> Seq<Emission> {
        triplets(self.rows@, self.cols@, self.data@).subrange(offset(self.lengths@, b), offset(self.lengths@, b + 1))
    }

    pub fn new(
        band_names: Vec<String>,
        rows: Vec<usize>,
        cols: Vec<usize>,
        data: Vec<i64>,
        lengths: Vec<usize>,
        raster_info: RasterInfo,
        pxfn: PixelFunction,
        background: i64,
    ) -> (s: SparseArray)
        ensures
            s.band_names == band_names,
            s.rows == rows,
            s.cols == cols,
            s.data == data,
            s.lengths == lengths,
            s.raster_info == raster_info,
            s.pxfn == pxfn,
            s.background == background,
    {
        SparseArray { band_names, rows, cols, data, lengths, raster_info, pxfn, background }
    }

    /// The triplets as columns `(band, row, col, data)`; the 1-based band column is present
    /// only when there is more than one band.
    pub fn to_tabular(self) -> (r: (Option<Vec<usize>>, Vec<usize>, Vec<usize>, Vec<i64>))
        requires
            self.wf(),
            self.lengths@.len() < usize::MAX,
        ensures
            r.1@ == self.rows@,
            r.2@ == self.cols@,
            r.3@ == self.data@,
            r.0 is Some <==> self.lengths@.len() > 1,
            r.0 matches Some(band) ==> band@.len() == self.data@.len() && forall|b: int, i: int|
                0 <= b < self.lengths@.len() && #[trigger] offset(self.lengths@, b) <= i < offset(self.lengths@, b + 1) ==> #[trigger] band@[i] == b + 1,
    {
        if self.lengths.len() <= 1 {
            return (None, self.rows, self.cols, self.data);
        }
        let mut band: Vec<usize> = Vec::new();
        let mut b: usize = 0;
        while b < self.lengths.len()
            invariant
                self.wf(),
                self.lengths@.len() < usize::MAX,
                b <= self.lengths@.len(),
                band@.len() == offset(self.lengths@, b as int),
                forall|j: int, i: int| 0 <= j < b && #[trigger] offset(self.lengths@, j) <= i < offset(self.lengths@, j + 1) ==> #[trigger] band@[i] == j + 1,
            decreases self.lengths@.len() - b,
        {
            proof {
                lemma_offset_mono(self.lengths@, b + 1, self.lengths@.len() as int);
            }
            let n = self.lengths[b];
            let ghost start = band@.len();
            let mut k: usize = 0;
            while k < n
                invariant
                    b < self.lengths@.len() < usize::MAX,
                    n == self.lengths@[b as int],
                    k <= n,
                    band@.len() == start + k,
                    start == offset(self.lengths@, b as int),
                    forall|j: int, i: int| 0 <= j < b && #[trigger] offset(self.lengths@, j) <= i < offset(self.lengths@, j + 1) ==> #[trigger] band@[i] == j + 1,
                    forall|i: int| start <= i < band@.len() ==> band@[i] == b + 1,
                decreases n - k,
            {
                let ghost pre = band@;
                band.push(b + 1);
                k = k + 1;
                proof {
                    assert forall|j: int, i: int| 0 <= j < b && #[trigger] offset(self.lengths@, j) <= i < offset(self.lengths@, j + 1) implies #[trigger] band@[i] == j + 1 by {
                        lemma_offset_mono(self.lengths@, j + 1, b as int);
                        lemma_offset_mono(self.lengths@, 0, j);
                        assert(pre[i] == j + 1);
                        assert(i < pre.len());
                        assert(band@ == pre.push((b + 1) as usize));
                        assert(band@[i] == pre[i]);
                    }
                }
            }
            proof {
                assert forall|j: int, i: int| 0 <= j < b + 1 && #[trigger] offset(self.lengths@, j) <= i < offset(self.lengths@, j + 1) implies #[trigger] band@[i] == j + 1 by {
                    if j < b {
                        lemma_offset_mono(self.lengths@, j + 1, b as int);
                    } else {
                        assert(offset(self.lengths@, j + 1) == start + n);
                    }
                }
            }
            b = b + 1;
        }
        (Some(band), self.rows, self.cols, self.data)
    }

    /// Replays each band's block through the reducer onto a band of background.
    pub fn materialize(&self) -> (bands: Vec<Vec<i64>>)
        requires
            self.wf(),
            self.raster_info.wf(),
            self.raster_info.nrows * self.raster_info.ncols * 8 <= isize::MAX,
        ensures
            bands@.len() == self.lengths@.len(),
            forall|b: int| 0 <= b < bands@.len() ==> (#[trigger] bands@[b])@.len() == self.raster_info.nrows * self.raster_info.ncols,
            forall|b: int, r: int, c: int|
                0 <= b < bands@.len() && 0 <= r < self.raster_info.nrows && 0 <= c < self.raster_info.ncols
                    ==> #[trigger] bands@[b]@[cell(r, c, self.raster_info.ncols as int)]
                    == replay(self.pxfn, self.background, self.background, self.block(b), r, c),
    {
        let nrows = self.raster_info.nrows;
        let ncols = self.raster_info.ncols;
        let total = self.data.len();
        let mut bands: Vec<Vec<i64>> = Vec::new();
        let mut start: usize = 0;
        let mut b: usize = 0;
        while b < self.lengths.len()
            invariant
                self.wf(),
                nrows == self.raster_info.nrows,
                ncols == self.raster_info.ncols,
                total == self.data@.len(),
                self.raster_info.wf(),
                nrows * ncols * 8 <= isize::MAX,
                b <= self.lengths@.len(),
                start == offset(self.lengths@, b as int),
                bands@.len() == b,
                forall|j: int| 0 <= j < b ==> (#[trigger] bands@[j])@.len() == nrows * ncols,
                forall|j: int, r: int, c: int|
                    0 <= j < b && 0 <= r < nrows && 0 <= c < ncols ==> #[trigger] bands@[j]@[cell(r, c, ncols as int)]
                        == replay(self.pxfn, self.background, self.background, self.block(j), r, c),
            decreases self.lengths@.len() - b,
        {
            proof {
                lemma_offset_mono(self.lengths@, b + 1, self.lengths@.len() as int);
            }
            let end = start + self.lengths[b];
            let mut w = DenseArrayWriter::new(nrows, ncols, self.pxfn, self.background);
            let ghost all = triplets(self.rows@, self.cols@, self.data@);
            let mut k: usize = start;
            while k < end
                invariant
                    self.wf(),
                    start <= k <= end,
                    end == offset(self.lengths@, b + 1),
                    end <= self.data@.len(),
                    all == triplets(self.rows@, self.cols@, self.data@),
                    w.inv(),
                    w.frame() == (crate::writers::Frame { name: Seq::empty(), cells: Seq::new((nrows * ncols) as nat, |i: int| self.background), pxfn: self.pxfn, background: self.background, rows: nrows as nat, cols: ncols as nat, layers: Seq::empty() }),
                    forall|r: int, c: int, bb: i64| #[trigger] w.accepts(r, c, bb) <==> (0 <= r < nrows && 0 <= c < ncols && bb == self.background),
                    forall|r: int, c: int|
                        0 <= r < nrows && 0 <= c < ncols ==> #[trigger] replay(self.pxfn, self.background, self.background, w.received(), r, c)
                            == replay(self.pxfn, self.background, self.background, all.subrange(start as int, k as int), r, c),
                decreases end - k,
            {
                let y = self.rows[k];
                let x = self.cols[k];
                let v = self.data[k];
                let ghost prev = w.received();
                if y < nrows && x < ncols {
                    w.write(y, x, v, self.background);
                }
                proof {
                    let sub = all.subrange(start as int, k + 1);
                    assert(sub.drop_last() =~= all.subrange(start as int, k as int));
                    assert(sub.last() == (Emission { row: y, col: x, value: v }));
                    if y < nrows && x < ncols {
                        assert(w.received().drop_last() =~= prev);
                    }
                    assert forall|r: int, c: int|
                        0 <= r < nrows && 0 <= c < ncols implies #[trigger] replay(self.pxfn, self.background, self.background, w.received(), r, c)
                            == replay(self.pxfn, self.background, self.background, sub, r, c) by {
                        assert(replay(self.pxfn, self.background, self.background, prev, r, c)
                            == replay(self.pxfn, self.background, self.background, all.subrange(start as int, k as int), r, c));
                    }
                }
                k = k + 1;
            }
            proof {
                assert(w.received().len() >= 0);
            }
            let ghost wr = w.received();
            let ghost wf_frame = w.frame();
            let out = w.into_band();
            proof {
                assert forall|r: int, c: int| 0 <= r < nrows && 0 <= c < ncols implies #[trigger] out@[cell(r, c, ncols as int)]
                    == replay(self.pxfn, self.background, self.background, self.block(b as int), r, c) by {
                    lemma_cell_bound(r, c, nrows as int, ncols as int);
                    assert(self.block(b as int) =~= all.subrange(start as int, end as int));
                }
            }
            bands.push(out);
            start = end;
            b = b + 1;
        }
        bands
    }
}

proof fn lemma_offset_mono(lengths: Seq<usize>, a: int, b: int)
    requires
        0 <= a <= b,
    ensures
        offset(lengths, a) <= offset(lengths, b),
    decreases b - a,
{
    if a < b {
        lemma_offset_mono(lengths, a, b - 1);
    }
}

/// Rasterizes `geoms` into sparse triplets, band by band as `rasterize_dense` groups them.
/// Nothing is reduced: each band's block holds its raw writes, and replaying it through
/// the reducer onto a band of `background` gives that band.
pub fn rasterize_sparse(
    geoms: &Vec<Geometry>,
    info: &RasterInfo,
    pxfn: PixelFunction,
    background: i64,
    field: Option<Vec<Option<i64>>>,
    by: Option<Vec<String>>,
    burn_value: i64,
    all_touched: bool,
) -> (r: Result<SparseArray, RasterizeError>)
    requires
        inputs_ok(geoms@, *info, opt_field(field), opt_view(by)),
    ensures
        r is Err <==> geoms@.len() == 0,
        r is Err ==> r == Err::<SparseArray, RasterizeError>(RasterizeError::NoGeometries),
        r matches Ok(s) ==> sparse_result(s, geoms@, *info, pxfn, background, opt_field(field), opt_view(by), burn_value, all_touched),
{
    let n = geoms.len();
    if n == 0 {
        return Err(RasterizeError::NoGeometries);
    }
    let ghost fv = opt_field(field);
    let fields = resolve_field(field, burn_value, n);
    let (ms, names) = bands_of(&by, n);
    let mut rows: Vec<usize> = Vec::new();
    let mut cols: Vec<usize> = Vec::new();
    let mut data: Vec<i64> = Vec::new();
    let mut lengths: Vec<usize> = Vec::new();
    let mut b: usize = 0;
    while b < ms.len()
        invariant
            inputs_ok(geoms@, *info, fv, opt_view(by)),
            n == geoms@.len(),
            fields@ == resolved_field(fv, burn_value, n as nat),
            ms@.len() == band_members(opt_view(by), n as nat).len(),
            forall|j: int| 0 <= j < ms@.len() ==> (#[trigger] ms@[j])@ == band_members(opt_view(by), n as nat)[j],
            b <= ms@.len(),
            lengths@.len() == b,
            rows@.len() == data@.len(),
            cols@.len() == data@.len(),
            offset(lengths@, b as int) == data@.len(),
            forall|j: int, f: PixelFunction, bg: i64, init: i64, r: int, c: int|
                0 <= j < b ==> #[trigger] replay(f, bg, init, triplets(rows@, cols@, data@).subrange(offset(lengths@, j), offset(lengths@, j + 1)), r, c)
                    == band_effect(f, bg, init, geoms@, fields@, ms@[j]@, *info, all_touched, (r, c), n as int),
            forall|j: int|
                0 <= j < b ==> row_runs(
                    #[trigger] triplets(rows@, cols@, data@).subrange(offset(lengths@, j), offset(lengths@, j + 1)),
                    geoms@,
                    fields@,
                    ms@[j]@,
                    *info,
                    all_touched,
                    n as int,
                ),
        decreases ms@.len() - b,
    {
        proof {
            assert(band_members(opt_view(by), n as nat)[b as int].len() == n) by {
                match opt_view(by) {
                    None => {},
                    Some(bv) => {
                        let fs = first_seen(views(bv), bv.len() as int);
                        assert(band_members(opt_view(by), n as nat)[b as int] == members_of(views(bv), fs[b as int]));
                    },
                }
            }
        }
        let writer = SparseArrayWriter::new(String::new());
        let w = process_band(geoms, &fields, &ms[b], info, background, all_touched, writer);
        proof {
            assert(w.received().subrange(0, 0) =~= Seq::<Emission>::empty());
        }
        let ghost before = triplets(rows@, cols@, data@);
        let ghost old_lengths = lengths@;
        assert(offset(old_lengths, b as int) == before.len());
        let ghost wr = w.received();
        assert(before + wr.take(0) =~= before);
        let len = w.values.len();
        let mut k: usize = 0;
        while k < len
            invariant
                len == w.values@.len(),
                w.rows@.len() == len,
                w.cols@.len() == len,
                wr == triplets(w.rows@, w.cols@, w.values@),
                k <= len,
                rows@.len() == data@.len(),
                cols@.len() == data@.len(),
                data@.len() == before.len() + k,
                triplets(rows@, cols@, data@) == before + wr.take(k as int),
            decreases len - k,
        {
            let ghost t0 = triplets(rows@, cols@, data@);
            rows.push(w.rows[k]);
            cols.push(w.cols[k]);
            data.push(w.values[k]);
            proof {
                assert(triplets(rows@, cols@, data@) =~= t0.push(wr[k as int]));
                assert(wr.take(k + 1) =~= wr.take(k as int).push(wr[k as int]));
                assert(before + wr.take(k + 1) =~= (before + wr.take(k as int)).push(wr[k as int]));
            }
            k = k + 1;
        }
        proof {
            assert(wr.take(len as int) =~= wr);
            assert(triplets(rows@, cols@, data@) =~= before + wr);
        }
        lengths.push(len);
        proof {
            assert(offset(lengths@, b as int) == offset(old_lengths, b as int)) by {
                lemma_offset_prefix(lengths@, old_lengths, b as int);
            }
            assert forall|j: int, f: PixelFunction, bg: i64, init: i64, r: int, c: int|
                0 <= j < b + 1 implies #[trigger] replay(f, bg, init, triplets(rows@, cols@, data@).subrange(offset(lengths@, j), offset(lengths@, j + 1)), r, c)
                    == band_effect(f, bg, init, geoms@, fields@, ms@[j]@, *info, all_touched, (r, c), n as int) by {
                lemma_offset_prefix(lengths@, old_lengths, j);
                if j < b {
                    lemma_offset_prefix(lengths@, old_lengths, j + 1);
                    lemma_offset_mono(old_lengths, j + 1, b as int);
                    lemma_offset_mono(old_lengths, j, j + 1);
                    lemma_offset_mono(old_lengths, 0, j);
                    assert(triplets(rows@, cols@, data@).subrange(offset(lengths@, j), offset(lengths@, j + 1))
                        =~= before.subrange(offset(old_lengths, j), offset(old_lengths, j + 1)));
                } else {
                    assert(triplets(rows@, cols@, data@).subrange(offset(lengths@, j), offset(lengths@, j + 1)) =~= wr);
                    assert(replay(f, bg, init, Seq::<Emission>::empty(), r, c) == init);
                }
            }
            assert(wr.skip(0) =~= wr);
            assert forall|j: int|
                0 <= j < b + 1 implies row_runs(
                    #[trigger] triplets(rows@, cols@, data@).subrange(offset(lengths@, j), offset(lengths@, j + 1)),
                    geoms@,
                    fields@,
                    ms@[j]@,
                    *info,
                    all_touched,
                    n as int,
                ) by {
                lemma_offset_prefix(lengths@, old_lengths, j);
                if j < b {
                    lemma_offset_prefix(lengths@, old_lengths, j + 1);
                    lemma_offset_mono(old_lengths, j + 1, b as int);
                    lemma_offset_mono(old_lengths, j, j + 1);
                    lemma_offset_mono(old_lengths, 0, j);
                    assert(triplets(rows@, cols@, data@).subrange(offset(lengths@, j), offset(lengths@, j + 1))
                        =~= before.subrange(offset(old_lengths, j), offset(old_lengths, j + 1)));
                } else {
                    assert(triplets(rows@, cols@, data@).subrange(offset(lengths@, j), offset(lengths@, j + 1)) =~= wr);
                }
            }
        }
        b = b + 1;
    }
    Ok(SparseArray::new(names, rows, cols, data, lengths, *info, pxfn, background))
}

proof fn lemma_offset_prefix(l1: Seq<usize>, l2: Seq<usize>, b: int)
    requires
        0 <= b <= l2.len(),
        b <= l1.len(),
        forall|i: int| 0 <= i < b ==> l1[i] == l2[i],
    ensures
        offset(l1, b) == offset(l2, b),
    decreases b,
{
    if b > 0 {
        lemma_offset_prefix(l1, l2, b - 1);
    }
}

/// The output encoding.
#[derive(Clone, Copy, Debug, PartialEq, Eq, Structural)]
pub enum OutputType {
    Dense,
    Sparse,
}

/// The encoding called by `name`: `numpy` and `xarray` are dense, `sparse` is sparse.
pub open spec fn output_type_named(name: Seq<char>) -> Option<OutputType> {
    if name == "numpy"@ || name == "xarray"@ || name == "dense"@ {
        Some(OutputType::Dense)
    } else if name == "sparse"@ {
        Some(OutputType::Sparse)
    } else {
        None
    }
}

impl OutputType {
    /// Resolves an encoding from its name; `None` for an unknown name.
    pub fn new(name: &str) -> (r: Option<OutputType>)
        ensures
            r == output_type_named(name@),
    {
        if crate::pixel_functions::same_text(name, "numpy") || crate::pixel_functions::same_text(name, "xarray")
            || crate::pixel_functions::same_text(name, "dense") {
            Some(OutputType::Dense)
        } else if crate::pixel_functions::same_text(name, "sparse") {
            Some(OutputType::Sparse)
        } else {
            None
        }
    }
}

/// A rasterization result in either encoding.
pub enum Output {
    Dense(DenseArray),
    Sparse(SparseArray),
}

/// Rasterizes `geoms` in the requested encoding.
pub fn rusterize_impl(
    geoms: &Vec<Geometry>,
    info: &RasterInfo,
    pxfn: PixelFunction,
    background: i64,
    field: Option<Vec<Option<i64>>>,
    by: Option<Vec<String>>,
    burn_value: i64,
    all_touched: bool,
    encoding: OutputType,
) -> (r: Result<Output, RasterizeError>)
    requires
        inputs_ok(geoms@, *info, opt_field(field), opt_view(by)),
    ensures
        r == Err::<Output, RasterizeError>(RasterizeError::NoGeometries) <==> geoms@.len() == 0,
        r == Err::<Output, RasterizeError>(RasterizeError::RasterTooLarge) <==> encoding == OutputType::Dense && geoms@.len() > 0
            && info.nrows * info.ncols * 8 > isize::MAX,
        r matches Ok(Output::Dense(d)) ==> encoding == OutputType::Dense && dense_result(
            d,
            geoms@,
            *info,
            pxfn,
            background,
            opt_field(field),
            opt_view(by),
            burn_value,
            all_touched,
        ),
        r matches Ok(Output::Sparse(s)) ==> encoding == OutputType::Sparse && sparse_result(
            s,
            geoms@,
            *info,
            pxfn,
            background,
            opt_field(field),
            opt_view(by),
            burn_value,
            all_touched,
        ),
{
    match encoding {
        OutputType::Dense => match rasterize_dense(geoms, info, pxfn, background, field, by, burn_value, all_touched) {
            Ok(d) => Ok(Output::Dense(d)),
            Err(e) => Err(e),
        },
        OutputType::Sparse => match rasterize_sparse(geoms, info, pxfn, background, field, by, burn_value, all_touched) {
            Ok(s) => Ok(Output::Sparse(s)),
            Err(e) => Err(e),
        },
    }
}

} // verus!
