//! Write targets for rasterized pixels, and how they compose.
use vstd::prelude::*;
use crate::band::{band_cells, band_cols, band_rows, Band};
use crate::cache::PixelCache;
use crate::pixel_functions::{apply_pixel_function, reduce, PixelFunction};

verus! {

/// One pixel write: position and value.
#[derive(Clone, Copy, Debug, PartialEq, Eq, Structural)]
pub struct Emission {
    pub row: usize,
    pub col: usize,
    pub value: i64,
}

pub open spec fn pos(e: Emission) -> (int, int) {
    (e.row as int, e.col as int)
}

/// The positions written by `log`.
pub open spec fn positions(log: Seq<Emission>) -> Set<(int, int)>
    decreases log.len(),
{
    if log.len() == 0 {
        Set::empty()
    } else {
        positions(log.drop_last()).insert(pos(log.last()))
    }
}

/// Content of cell `(r, c)` after the writes of `log`, starting from `init`,
/// each combined by reducer `f` against `background`.
pub open spec fn replay(f: PixelFunction, background: i64, init: i64, log: Seq<Emission>, r: int, c: int) -> i64
    decreases log.len(),
{
    if log.len() == 0 {
        init
    } else {
        let prev = replay(f, background, init, log.drop_last(), r, c);
        let e = log.last();
        if pos(e) == (r, c) {
            reduce(f, prev, e.value, background)
        } else {
            prev
        }
    }
}

/// The writes of `log` whose position is neither in `seen` nor written earlier in `log`.
pub open spec fn fresh(log: Seq<Emission>, seen: Set<(int, int)>) -> Seq<Emission>
    decreases log.len(),
{
    if log.len() == 0 {
        Seq::empty()
    } else {
        let prev = log.drop_last();
        let e = log.last();
        if seen.union(positions(prev)).contains(pos(e)) {
            fresh(prev, seen)
        } else {
            fresh(prev, seen).push(e)
        }
    }
}

/// The writes of `log` whose position is not in `seen`.
pub open spec fn unseen(log: Seq<Emission>, seen: Set<(int, int)>) -> Seq<Emission> {
    log.filter(|e: Emission| !seen.contains(pos(e)))
}

/// What a writer was set up with, which writes never change: the reducer setup of the
/// terminal band or the name of a sparse band, and for each wrapping layer its starting
/// log and pixel set.
pub struct Frame {
    pub name: Seq<char>,
    pub cells: Seq<i64>,
    pub pxfn: PixelFunction,
    pub background: i64,
    pub rows: nat,
    pub cols: nat,
    pub layers: Seq<(Seq<Emission>, Set<(int, int)>)>,
}

/// Something pixels can be written to.
pub trait PixelWriter {
    /// The writer's fixed setup.
    spec fn frame(&self) -> Frame;

    /// Every write received so far, in order.
    spec fn received(&self) -> Seq<Emission>;

    /// Whether a write at `(row, col)` with this background is admissible.
    spec fn accepts(&self, row: int, col: int, background: i64) -> bool;

    spec fn inv(&self) -> bool;

    fn write(&mut self, y: usize, x: usize, value: i64, background: i64)
        requires
            old(self).inv(),
            old(self).accepts(y as int, x as int, background),
        ensures
            final(self).inv(),
            final(self).received() == old(self).received().push(Emission { row: y, col: x, value }),
            forall|r: int, c: int, b: i64| #[trigger] final(self).accepts(r, c, b) == old(self).accepts(r, c, b),
            final(self).frame() == old(self).frame(),
    ;
}

/// The frame of a layer over a writer with frame `f`, started at log `log` and pixel set `seen`.
pub open spec fn layered(f: Frame, log: Seq<Emission>, seen: Set<(int, int)>) -> Frame {
    Frame { layers: f.layers.push((log, seen)), ..f }
}

/// A layer's frame determines the frame beneath it and the layer's own start.
pub proof fn lemma_layered_injective(f1: Frame, l1: Seq<Emission>, s1: Set<(int, int)>, f2: Frame, l2: Seq<Emission>, s2: Set<(int, int)>)
    requires
        layered(f1, l1, s1) == layered(f2, l2, s2),
    ensures
        f1 == f2,
        l1 == l2,
        s1 == s2,
{
    let a = f1.layers.push((l1, s1));
    let b = f2.layers.push((l2, s2));
    assert(a[a.len() - 1] == b[b.len() - 1]);
    assert(f1.layers =~= a.drop_last());
    assert(f2.layers =~= b.drop_last());
}

/// Index of cell `(r, c)` in a row-major band with `ncols` columns.
pub open spec fn cell(r: int, c: int, ncols: int) -> int {
    r * ncols + c
}

/// Row-major cell indices of a `nrows x ncols` band are in bounds.
pub proof fn lemma_cell_bound(r: int, c: int, nrows: int, ncols: int)
    requires
        0 <= r < nrows,
        0 <= c < ncols,
    ensures
        0 <= cell(r, c, ncols) < nrows * ncols,
{
    assert(r * ncols + c < nrows * ncols) by (nonlinear_arith) requires 0 <= c < ncols, 0 <= r < nrows;
    assert(0 <= r * ncols) by (nonlinear_arith) requires 0 <= r, 0 <= ncols;
}

/// Distinct pixels have distinct cells.
pub proof fn lemma_cell_injective(r1: int, c1: int, r2: int, c2: int, ncols: int)
    requires
        0 <= c1 < ncols,
        0 <= c2 < ncols,
        0 <= r1,
        0 <= r2,
        cell(r1, c1, ncols) == cell(r2, c2, ncols),
    ensures
        r1 == r2 && c1 == c2,
{
    if r1 < r2 {
        assert(r1 * ncols + ncols <= r2 * ncols) by (nonlinear_arith) requires r1 < r2, ncols > 0;
    } else if r2 < r1 {
        assert(r2 * ncols + ncols <= r1 * ncols) by (nonlinear_arith) requires r2 < r1, ncols > 0;
    }
}

/// Dense output for one band: each write is reduced into the band's cell.
pub struct DenseArrayWriter {
    band: Band,
    nrows: usize,
    ncols: usize,
    pxfn: PixelFunction,
    background: i64,
    start: Ghost<Seq<i64>>,
    log: Ghost<Seq<Emission>>,
}

impl DenseArrayWriter {
    /// A writer over a fresh `nrows x ncols` band whose cells all hold `background`.
    pub fn new(nrows: usize, ncols: usize, pxfn: PixelFunction, background: i64) -> (w: DenseArrayWriter)
        requires
            nrows <= isize::MAX,
            ncols <= isize::MAX,
            nrows * ncols * 8 <= isize::MAX,
        ensures
            w.inv(),
            w.received() == Seq::<Emission>::empty(),
            w.frame() == (Frame {
                name: Seq::empty(),
                cells: Seq::new((nrows * ncols) as nat, |i: int| background),
                pxfn,
                background,
                rows: nrows as nat,
                cols: ncols as nat,
                layers: Seq::empty(),
            }),
            forall|r: int, c: int, b: i64| #[trigger] w.accepts(r, c, b) <==> (0 <= r < nrows && 0 <= c < ncols && b == background),
    {
        let band = Band::filled(nrows, ncols, background);
        DenseArrayWriter { band, nrows, ncols, pxfn, background, start: Ghost(band_cells(band)), log: Ghost(Seq::empty()) }
    }

    /// Gives the band back: each cell holds its starting value with the received writes replayed on it.
    pub fn into_band(self) -> (band: Vec<i64>)
        requires
            self.inv(),
        ensures
            band@.len() == self.frame().rows * self.frame().cols,
            forall|r: int, c: int|
                0 <= r < self.frame().rows && 0 <= c < self.frame().cols ==> #[trigger] band@[cell(r, c, self.frame().cols as int)]
                    == replay(self.frame().pxfn, self.frame().background, self.frame().cells[cell(r, c, self.frame().cols as int)], self.received(), r, c),
    {
        self.band.into_vec()
    }
}

impl PixelWriter for DenseArrayWriter {
    closed spec fn frame(&self) -> Frame {
        Frame { name: Seq::empty(), cells: self.start@, pxfn: self.pxfn, background: self.background, rows: self.nrows as nat, cols: self.ncols as nat, layers: Seq::empty() }
    }

    closed spec fn received(&self) -> Seq<Emission> {
        self.log@
    }

    closed spec fn accepts(&self, row: int, col: int, background: i64) -> bool {
        0 <= row < self.nrows && 0 <= col < self.ncols && background == self.background
    }

    closed spec fn inv(&self) -> bool {
        &&& band_rows(self.band) == self.nrows
        &&& band_cols(self.band) == self.ncols
        &&& band_cells(self.band).len() == self.nrows * self.ncols
        &&& self.start@.len() == self.nrows * self.ncols
        &&& forall|r: int, c: int|
            0 <= r < self.nrows && 0 <= c < self.ncols ==> #[trigger] band_cells(self.band)[cell(r, c, self.ncols as int)]
                == replay(self.pxfn, self.background, self.start@[cell(r, c, self.ncols as int)], self.log@, r, c)
    }

    fn write(&mut self, y: usize, x: usize, value: i64, background: i64) {
        proof {
            lemma_cell_bound(y as int, x as int, self.nrows as int, self.ncols as int);
        }
        let ghost i = y * self.ncols + x;
        let old_value = self.band.get(y, x);
        let ghost pre = *self;
        self.band.set(y, x, apply_pixel_function(self.pxfn, old_value, value, background));
        proof {
            let e = Emission { row: y, col: x, value };
            self.log@ = pre.log@.push(e);
            assert(self.log@.drop_last() =~= pre.log@);
            assert forall|r: int, c: int|
                0 <= r < self.nrows && 0 <= c < self.ncols implies #[trigger] band_cells(self.band)[cell(r, c, self.ncols as int)]
                    == replay(self.pxfn, self.background, self.start@[cell(r, c, self.ncols as int)], self.log@, r, c) by {
                lemma_cell_bound(r, c, self.nrows as int, self.ncols as int);
                if (r, c) != (y as int, x as int) {
                    if cell(r, c, self.ncols as int) == i {
                        lemma_cell_injective(r, c, y as int, x as int, self.ncols as int);
                    }
                }
            }
        }
    }
}

/// Sparse output for one band: every write is kept as a `(row, col, value)` triplet.
pub struct SparseArrayWriter {
    pub band_name: String,
    pub rows: Vec<usize>,
    pub cols: Vec<usize>,
    pub values: Vec<i64>,
}

/// The triplets held in three parallel vectors, as writes.
pub open spec fn triplets(rows: Seq<usize>, cols: Seq<usize>, values: Seq<i64>) -> Seq<Emission> {
    Seq::new(values.len(), |i: int| Emission { row: rows[i], col: cols[i], value: values[i] })
}

impl SparseArrayWriter {
    pub fn new(band_name: String) -> (w: SparseArrayWriter)
        ensures
            w.band_name == band_name,
            w.inv(),
            w.received() == Seq::<Emission>::empty(),
    {
        let w = SparseArrayWriter { band_name, rows: Vec::new(), cols: Vec::new(), values: Vec::new() };
        assert(w.received() =~= Seq::<Emission>::empty());
        w
    }
}

impl PixelWriter for SparseArrayWriter {
    open spec fn frame(&self) -> Frame {
        Frame { name: self.band_name@, cells: Seq::empty(), pxfn: PixelFunction::Sum, background: 0, rows: 0, cols: 0, layers: Seq::empty() }
    }

    open spec fn received(&self) -> Seq<Emission> {
        triplets(self.rows@, self.cols@, self.values@)
    }

    open spec fn accepts(&self, row: int, col: int, background: i64) -> bool {
        true
    }

    open spec fn inv(&self) -> bool {
        self.rows@.len() == self.values@.len() && self.cols@.len() == self.values@.len()
    }

    fn write(&mut self, y: usize, x: usize, value: i64, background: i64)
        ensures
            final(self).rows@ == old(self).rows@.push(y),
            final(self).cols@ == old(self).cols@.push(x),
            final(self).values@ == old(self).values@.push(value),
            final(self).band_name == old(self).band_name,
    {
        self.rows.push(y);
        self.cols.push(x);
        self.values.push(value);
        assert(self.received() =~= old(self).received().push(Emission { row: y, col: x, value }));
    }
}

/// Pass-through writer that forwards only the first write to each pixel and
/// records every written pixel in a cache.
pub struct LineWriter<W: PixelWriter> {
    inner: W,
    cache: PixelCache,
    base_log: Ghost<Seq<Emission>>,
    base_seen: Ghost<Set<(int, int)>>,
    inner_frame: Ghost<Frame>,
    log: Ghost<Seq<Emission>>,
}

impl<W: PixelWriter> LineWriter<W> {
    pub closed spec fn base_log(&self) -> Seq<Emission> {
        self.base_log@
    }

    pub closed spec fn base_seen(&self) -> Set<(int, int)> {
        self.base_seen@
    }

    pub fn new(inner: W, cache: PixelCache) -> (w: LineWriter<W>)
        requires
            inner.inv(),
            cache.inv(),
        ensures
            w.inv(),
            w.received() == Seq::<Emission>::empty(),
            w.base_log() == inner.received(),
            w.base_seen() == cache.contents(),
            w.frame() == layered(inner.frame(), inner.received(), cache.contents()),
            forall|r: int, c: int, b: i64| #[trigger] w.accepts(r, c, b) == inner.accepts(r, c, b),
    {
        let ghost base_log = inner.received();
        let ghost base_seen = cache.contents();
        let ghost inner_frame = inner.frame();
        let w = LineWriter { inner, cache, base_log: Ghost(base_log), base_seen: Ghost(base_seen), inner_frame: Ghost(inner_frame), log: Ghost(Seq::empty()) };
        assert(base_seen.union(Set::empty()) =~= base_seen);
        assert(base_log + Seq::<Emission>::empty() =~= base_log);
        w
    }

    /// Gives back the inner writer and the cache.
    pub fn into_parts(self) -> (r: (W, PixelCache))
        requires
            self.inv(),
        ensures
            r.0.inv(),
            r.1.inv(),
            r.0.received() == self.base_log() + fresh(self.received(), self.base_seen()),
            r.1.contents() == self.base_seen().union(positions(self.received())),
            self.frame() == layered(r.0.frame(), self.base_log(), self.base_seen()),
            forall|row: int, c: int, b: i64| #[trigger] r.0.accepts(row, c, b) == self.accepts(row, c, b),
    {
        (self.inner, self.cache)
    }
}

impl<W: PixelWriter> PixelWriter for LineWriter<W> {
    closed spec fn frame(&self) -> Frame {
        layered(self.inner_frame@, self.base_log@, self.base_seen@)
    }

    closed spec fn received(&self) -> Seq<Emission> {
        self.log@
    }

    closed spec fn accepts(&self, row: int, col: int, background: i64) -> bool {
        self.inner.accepts(row, col, background)
    }

    closed spec fn inv(&self) -> bool {
        &&& self.inner.inv()
        &&& self.cache.inv()
        &&& self.inner.received() == self.base_log@ + fresh(self.log@, self.base_seen@)
        &&& self.cache.contents() == self.base_seen@.union(positions(self.log@))
        &&& self.inner.frame() == self.inner_frame@
    }

    fn write(&mut self, y: usize, x: usize, value: i64, background: i64) {
        let ghost pre = *self;
        let e = Emission { row: y, col: x, value };
        if self.cache.insert(x, y) {
            self.inner.write(y, x, value, background);
        }
        proof {
            self.log@ = pre.log@.push(e);
            assert(self.log@.drop_last() =~= pre.log@);
            assert(pos(e) == (y as int, x as int));
            assert(self.base_seen@.union(positions(self.log@)) =~= pre.base_seen@.union(positions(pre.log@)).insert(pos(e)));
            assert(self.inner.received() =~= self.base_log@ + fresh(self.log@, self.base_seen@));
        }
    }
}

/// Pass-through writer that drops writes to pixels present in a cache.
pub struct FillWriter<W: PixelWriter> {
    inner: W,
    cache: PixelCache,
    base_log: Ghost<Seq<Emission>>,
    base_seen: Ghost<Set<(int, int)>>,
    inner_frame: Ghost<Frame>,
    log: Ghost<Seq<Emission>>,
}

impl<W: PixelWriter> FillWriter<W> {
    pub closed spec fn cache(&self) -> PixelCache {
        self.cache
    }

    pub closed spec fn base_log(&self) -> Seq<Emission> {
        self.base_log@
    }

    pub fn new(inner: W, cache: PixelCache) -> (w: FillWriter<W>)
        requires
            inner.inv(),
            cache.inv(),
        ensures
            w.inv(),
            w.received() == Seq::<Emission>::empty(),
            w.base_log() == inner.received(),
            w.cache() == cache,
            w.frame() == layered(inner.frame(), inner.received(), cache.contents()),
            forall|r: int, c: int, b: i64| #[trigger] w.accepts(r, c, b) == inner.accepts(r, c, b),
    {
        let ghost base_log = inner.received();
        let ghost base_seen = cache.contents();
        let ghost inner_frame = inner.frame();
        let w = FillWriter { inner, cache, base_log: Ghost(base_log), base_seen: Ghost(base_seen), inner_frame: Ghost(inner_frame), log: Ghost(Seq::empty()) };
        assert(unseen(Seq::<Emission>::empty(), cache.contents()) =~= Seq::<Emission>::empty());
        assert(base_log + Seq::<Emission>::empty() =~= base_log);
        w
    }

    /// Gives back the inner writer and the cache.
    pub fn into_parts(self) -> (r: (W, PixelCache))
        requires
            self.inv(),
        ensures
            r.0.inv(),
            r.1.inv(),
            self.frame() == layered(r.0.frame(), self.base_log(), r.1.contents()),
            r.0.received() == self.base_log() + unseen(self.received(), r.1.contents()),
            forall|row: int, c: int, b: i64| #[trigger] r.0.accepts(row, c, b) == self.accepts(row, c, b),
    {
        (self.inner, self.cache)
    }
}

impl<W: PixelWriter> PixelWriter for FillWriter<W> {
    closed spec fn frame(&self) -> Frame {
        layered(self.inner_frame@, self.base_log@, self.base_seen@)
    }

    closed spec fn received(&self) -> Seq<Emission> {
        self.log@
    }

    closed spec fn accepts(&self, row: int, col: int, background: i64) -> bool {
        self.inner.accepts(row, col, background)
    }

    closed spec fn inv(&self) -> bool {
        &&& self.inner.inv()
        &&& self.cache.inv()
        &&& self.inner.received() == self.base_log@ + unseen(self.log@, self.cache.contents())
        &&& self.cache.contents() == self.base_seen@
        &&& self.inner.frame() == self.inner_frame@
    }

    fn write(&mut self, y: usize, x: usize, value: i64, background: i64) {
        let ghost pre = *self;
        let e = Emission { row: y, col: x, value };
        if !self.cache.contains(x, y) {
            self.inner.write(y, x, value, background);
        }
        proof {
            self.log@ = pre.log@.push(e);
            let pred = |e: Emission| !self.cache.contents().contains(pos(e));
            pre.log@.lemma_filter_push(e, pred);
            assert(self.inner.received() =~= self.base_log@ + unseen(self.log@, self.cache.contents()));
        }
    }
}

} // verus!
