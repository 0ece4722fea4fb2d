//! Dropping geometries of unsupported kinds, together with their rows.
use vstd::prelude::*;
use crate::geometry::Geometry;
use crate::rusterize_impl::RasterizeError;

verus! {

/// The entries of `v` at the first `k` positions where `s` holds a geometry.
pub open spec fn kept<A>(s: Seq<Option<Geometry>>, v: Seq<A>, k: int) -> Seq<A>
    decreases k,
{
    if k <= 0 {
        Seq::empty()
    } else if s[k - 1] is Some {
        kept(s, v, k - 1).push(v[k - 1])
    } else {
        kept(s, v, k - 1)
    }
}

/// The geometries among the first `k` entries of `s`.
pub open spec fn kept_geoms(s: Seq<Option<Geometry>>, k: int) -> Seq<Geometry>
    decreases k,
{
    if k <= 0 {
        Seq::empty()
    } else {
        match s[k - 1] {
            Some(g) => kept_geoms(s, k - 1).push(g),
            None => kept_geoms(s, k - 1),
        }
    }
}

/// How many of the first `k` entries of `s` are unsupported.
pub open spec fn dropped(s: Seq<Option<Geometry>>, k: int) -> nat
    decreases k,
{
    if k <= 0 {
        0
    } else {
        dropped(s, k - 1) + if s[k - 1] is None { 1nat } else { 0nat }
    }
}

/// What is left after dropping unsupported geometries, and how many were dropped.
pub struct Validated {
    pub geoms: Vec<Geometry>,
    pub field: Option<Vec<Option<i64>>>,
    pub by: Option<Vec<String>>,
    pub dropped: usize,
}

/// `v` in reverse order.
fn reversed<T>(v: Vec<T>) -> (r: Vec<T>)
    ensures
        r@.len() == v@.len(),
        forall|i: int| 0 <= i < v@.len() ==> #[trigger] r@[i] == v@[v@.len() - 1 - i],
{
    let ghost orig = v@;
    let mut v = v;
    let mut r: Vec<T> = Vec::new();
    while v.len() > 0
        invariant
            v@ == orig.take(orig.len() - r@.len()),
            r@.len() <= orig.len(),
            forall|i: int| 0 <= i < r@.len() ==> #[trigger] r@[i] == orig[orig.len() - 1 - i],
        decreases v@.len(),
    {
        let x = v.pop().unwrap();
        r.push(x);
        assert(v@ =~= orig.take(orig.len() - r@.len()));
    }
    r
}

/// Drops the entries that hold no geometry (an unsupported kind), with their field and
/// group rows. Fails when nothing is left.
pub fn validate_geometries(geoms: Vec<Option<Geometry>>, field: Option<Vec<Option<i64>>>, by: Option<Vec<String>>) -> (r: Result<Validated, RasterizeError>)
    requires
        field matches Some(f) ==> f@.len() == geoms@.len(),
        by matches Some(b) ==> b@.len() == geoms@.len(),
    ensures
        r is Err <==> kept_geoms(geoms@, geoms@.len() as int).len() == 0,
        r is Err ==> r == Err::<Validated, RasterizeError>(RasterizeError::NoGeometries),
        r matches Ok(v) ==> {
            &&& v.geoms@ == kept_geoms(geoms@, geoms@.len() as int)
            &&& v.dropped == dropped(geoms@, geoms@.len() as int)
            &&& (field matches Some(f) ==> v.field matches Some(vf) && vf@ == kept(geoms@, f@, geoms@.len() as int))
            &&& (field is None ==> v.field is None)
            &&& (by matches Some(b) ==> v.by matches Some(vb) && vb@ == kept(geoms@, b@, geoms@.len() as int))
            &&& (by is None ==> v.by is None)
        },
{
    let n = geoms.len();
    let ghost gs = geoms@;
    let ghost fs = match &field { Some(f) => f@, None => Seq::empty() };
    let ghost bs = match &by { Some(b) => b@, None => Seq::empty() };
    let has_field = field.is_some();
    let has_by = by.is_some();
    let mut rg = reversed(geoms);
    let mut rf = match field { Some(f) => reversed(f), None => Vec::new() };
    let mut rb = match by { Some(b) => reversed(b), None => Vec::new() };
    let mut out_g: Vec<Geometry> = Vec::new();
    let mut out_f: Vec<Option<i64>> = Vec::new();
    let mut out_b: Vec<String> = Vec::new();
    let mut count: usize = 0;
    let mut i: usize = 0;
    while i < n
        invariant
            n == gs.len(),
            i <= n,
            has_field ==> fs.len() == n,
            has_by ==> bs.len() == n,
            rg@.len() == n - i,
            forall|k: int| 0 <= k < rg@.len() ==> #[trigger] rg@[k] == gs[n - 1 - k],
            has_field ==> rf@.len() == n - i,
            has_field ==> forall|k: int| 0 <= k < rf@.len() ==> #[trigger] rf@[k] == fs[n - 1 - k],
            has_by ==> rb@.len() == n - i,
            has_by ==> forall|k: int| 0 <= k < rb@.len() ==> #[trigger] rb@[k] == bs[n - 1 - k],
            out_g@ == kept_geoms(gs, i as int),
            has_field ==> out_f@ == kept(gs, fs, i as int),
            has_by ==> out_b@ == kept(gs, bs, i as int),
            count == dropped(gs, i as int),
            count <= i,
        decreases n - i,
    {
        let g = rg.pop().unwrap();
        assert(g == gs[i as int]);
        let f = if has_field { rf.pop().unwrap() } else { None };
        proof {
            if has_field {
                assert(f == fs[i as int]);
            }
        }
        match g {
            Some(geom) => {
                out_g.push(geom);
                if has_field {
                    out_f.push(f);
                }
                if has_by {
                    let b = rb.pop().unwrap();
                    assert(b == bs[i as int]);
                    out_b.push(b);
                }
            },
            None => {
                if has_by {
                    let _b = rb.pop();
                }
                count = count + 1;
            },
        }
        i = i + 1;
    }
    if out_g.len() == 0 {
        return Err(RasterizeError::NoGeometries);
    }
    let field_out = if has_field { Some(out_f) } else { None };
    let by_out = if has_by { Some(out_b) } else { None };
    Ok(Validated { geoms: out_g, field: field_out, by: by_out, dropped: count })
}

} // verus!
