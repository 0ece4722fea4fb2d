//! What a burner adds to a writer's log, and how that changes a replayed cell.
use vstd::prelude::*;
use crate::pixel_functions::{reduce, PixelFunction};
use crate::writers::{fresh, pos, positions, replay, unseen, Emission};

verus! {

/// Every write carries `v`, and the positions written are exactly `s`.
pub open spec fn covers(added: Seq<Emission>, s: Set<(int, int)>, v: i64) -> bool {
    &&& forall|i: int| 0 <= i < added.len() ==> (#[trigger] added[i]).value == v
    &&& positions(added) == s
}

/// No position is written twice.
pub open spec fn distinct_positions(added: Seq<Emission>) -> bool {
    forall|i: int, j: int| 0 <= i < j < added.len() ==> pos(#[trigger] added[i]) != pos(#[trigger] added[j])
}

/// `after` is `before` followed by writes of `v` covering `s`.
pub open spec fn extends_covering(before: Seq<Emission>, after: Seq<Emission>, s: Set<(int, int)>, v: i64) -> bool {
    &&& before.len() <= after.len()
    &&& after.subrange(0, before.len() as int) == before
    &&& covers(after.skip(before.len() as int), s, v)
}

/// `after` is `before` followed by exactly one write of `v` to each position of `s`.
pub open spec fn extends_once(before: Seq<Emission>, after: Seq<Emission>, s: Set<(int, int)>, v: i64) -> bool {
    &&& extends_covering(before, after, s, v)
    &&& distinct_positions(after.skip(before.len() as int))
}

pub proof fn lemma_positions_index(log: Seq<Emission>)
    ensures
        forall|i: int| 0 <= i < log.len() ==> positions(log).contains(pos(#[trigger] log[i])),
        forall|p: (int, int)| positions(log).contains(p) ==> exists|i: int| 0 <= i < log.len() && pos(#[trigger] log[i]) == p,
    decreases log.len(),
{
    if log.len() > 0 {
        let d = log.drop_last();
        lemma_positions_index(d);
        assert forall|i: int| 0 <= i < log.len() implies positions(log).contains(pos(#[trigger] log[i])) by {
            if i < log.len() - 1 {
                assert(d[i] == log[i]);
            }
        }
        assert forall|p: (int, int)| positions(log).contains(p) implies exists|i: int| 0 <= i < log.len() && pos(#[trigger] log[i]) == p by {
            if p != pos(log.last()) {
                assert(positions(d).contains(p));
                let i = choose|i: int| 0 <= i < d.len() && pos(#[trigger] d[i]) == p;
                assert(log[i] == d[i]);
            } else {
                assert(pos(log[log.len() - 1]) == p);
            }
        }
    }
}

/// Appending one write.
pub proof fn lemma_extend_push(before: Seq<Emission>, mid: Seq<Emission>, s: Set<(int, int)>, v: i64, e: Emission)
    requires
        extends_covering(before, mid, s, v),
        e.value == v,
    ensures
        extends_covering(before, mid.push(e), s.insert(pos(e)), v),
        distinct_positions(mid.skip(before.len() as int)) && !s.contains(pos(e)) ==> extends_once(before, mid.push(e), s.insert(pos(e)), v),
{
    let a = mid.skip(before.len() as int);
    let a2 = mid.push(e).skip(before.len() as int);
    assert(a2 =~= a.push(e));
    assert(a2.drop_last() =~= a);
    assert(mid.push(e).subrange(0, before.len() as int) =~= mid.subrange(0, before.len() as int));
    if distinct_positions(a) && !s.contains(pos(e)) {
        lemma_positions_index(a);
        assert forall|i: int, j: int| 0 <= i < j < a2.len() implies pos(#[trigger] a2[i]) != pos(#[trigger] a2[j]) by {
            if j == a2.len() - 1 {
                assert(a2[i] == a[i]);
            } else {
                assert(a2[i] == a[i] && a2[j] == a[j]);
            }
        }
    }
}

/// Nothing appended yet.
pub proof fn lemma_extend_start(before: Seq<Emission>, v: i64)
    ensures
        extends_once(before, before, Set::empty(), v),
{
    assert(before.skip(before.len() as int) =~= Seq::<Emission>::empty());
    assert(before.subrange(0, before.len() as int) =~= before);
}

/// The first writes to each position have distinct positions, covering all but `seen`.
pub proof fn lemma_fresh(log: Seq<Emission>, seen: Set<(int, int)>, v: i64)
    requires
        forall|i: int| 0 <= i < log.len() ==> (#[trigger] log[i]).value == v,
    ensures
        covers(fresh(log, seen), positions(log).difference(seen), v),
        distinct_positions(fresh(log, seen)),
    decreases log.len(),
{
    if log.len() == 0 {
        assert(positions(log).difference(seen) =~= Set::empty());
    } else {
        let prev = log.drop_last();
        let e = log.last();
        assert forall|i: int| 0 <= i < prev.len() implies (#[trigger] prev[i]).value == v by {
            assert(prev[i] == log[i]);
        }
        lemma_fresh(prev, seen, v);
        let fp = fresh(prev, seen);
        if seen.union(positions(prev)).contains(pos(e)) {
            assert(positions(log).difference(seen) =~= positions(prev).difference(seen));
        } else {
            let fl = fp.push(e);
            assert(fl.drop_last() =~= fp);
            assert(positions(log).difference(seen) =~= positions(prev).difference(seen).insert(pos(e)));
            lemma_positions_index(fp);
            assert forall|i: int, j: int| 0 <= i < j < fl.len() implies pos(#[trigger] fl[i]) != pos(#[trigger] fl[j]) by {
                assert(fl[i] == fp[i]);
                if j < fp.len() {
                    assert(fl[j] == fp[j]);
                }
            }
        }
    }
}

/// Dropping the writes whose position is in `seen` keeps distinct positions and removes `seen`.
pub proof fn lemma_unseen(log: Seq<Emission>, s: Set<(int, int)>, v: i64, seen: Set<(int, int)>)
    requires
        covers(log, s, v),
        distinct_positions(log),
    ensures
        covers(unseen(log, seen), s.difference(seen), v),
        distinct_positions(unseen(log, seen)),
    decreases log.len(),
{
    let pred = |e: Emission| !seen.contains(pos(e));
    if log.len() == 0 {
        assert(unseen(log, seen) =~= Seq::<Emission>::empty());
        assert(s.difference(seen) =~= Set::empty());
    } else {
        let prev = log.drop_last();
        let e = log.last();
        assert(log =~= prev.push(e));
        prev.lemma_filter_push(e, pred);
        assert forall|i: int| 0 <= i < prev.len() implies (#[trigger] prev[i]).value == v by {
            assert(prev[i] == log[i]);
        }
        assert forall|i: int, j: int| 0 <= i < j < prev.len() implies pos(#[trigger] prev[i]) != pos(#[trigger] prev[j]) by {
            assert(prev[i] == log[i] && prev[j] == log[j]);
        }
        lemma_unseen(prev, positions(prev), v, seen);
        let up = unseen(prev, seen);
        lemma_positions_index(prev);
        if seen.contains(pos(e)) {
            assert(unseen(log, seen) =~= up);
            assert(s.difference(seen) =~= positions(prev).difference(seen));
        } else {
            let ul = up.push(e);
            assert(unseen(log, seen) =~= ul);
            assert(ul.drop_last() =~= up);
            assert(s.difference(seen) =~= positions(prev).difference(seen).insert(pos(e)));
            lemma_positions_index(up);
            assert forall|i: int, j: int| 0 <= i < j < ul.len() implies pos(#[trigger] ul[i]) != pos(#[trigger] ul[j]) by {
                assert(ul[i] == up[i]);
                if j < up.len() {
                    assert(ul[j] == up[j]);
                } else {
                    if pos(up[i]) == pos(e) {
                        assert(positions(prev).contains(pos(e)));
                        let k = choose|k: int| 0 <= k < prev.len() && pos(#[trigger] prev[k]) == pos(e);
                        assert(prev[k] == log[k]);
                        assert(pos(log[k]) != pos(log[log.len() - 1]));
                    }
                }
            }
        }
    }
}

/// How many writes of `log` land on `p`.
pub open spec fn count_at(log: Seq<Emission>, p: (int, int)) -> nat
    decreases log.len(),
{
    if log.len() == 0 {
        0
    } else {
        count_at(log.drop_last(), p) + if pos(log.last()) == p { 1nat } else { 0nat }
    }
}

/// `k` writes of `v` reduced into a cell holding `cell`.
pub open spec fn iterate(f: PixelFunction, bg: i64, cell: i64, v: i64, k: nat) -> i64
    decreases k,
{
    if k == 0 {
        cell
    } else {
        reduce(f, iterate(f, bg, cell, v, (k - 1) as nat), v, bg)
    }
}

/// `after` is `before` followed by writes of `v`, `hits(p)` of them at each pixel `p`.
pub open spec fn appends_hits(before: Seq<Emission>, after: Seq<Emission>, v: i64, hits: spec_fn((int, int)) -> nat) -> bool {
    &&& before.len() <= after.len()
    &&& after.subrange(0, before.len() as int) == before
    &&& forall|i: int| before.len() <= i < after.len() ==> (#[trigger] after[i]).value == v
    &&& forall|p: (int, int)| #[trigger] count_at(after.skip(before.len() as int), p) == hits(p)
}

/// Replaying writes that all carry `v` reduces `v` into each cell as often as it is hit.
pub proof fn lemma_replay_counts(f: PixelFunction, bg: i64, init: i64, before: Seq<Emission>, added: Seq<Emission>, v: i64, r: int, c: int)
    requires
        forall|i: int| 0 <= i < added.len() ==> (#[trigger] added[i]).value == v,
    ensures
        replay(f, bg, init, before + added, r, c) == iterate(f, bg, replay(f, bg, init, before, r, c), v, count_at(added, (r, c))),
    decreases added.len(),
{
    if added.len() == 0 {
        assert(before + added =~= before);
    } else {
        let a = added.drop_last();
        assert((before + added).drop_last() =~= before + a);
        assert((before + added).last() == added.last());
        assert forall|i: int| 0 <= i < a.len() implies (#[trigger] a[i]).value == v by {
            assert(a[i] == added[i]);
        }
        lemma_replay_counts(f, bg, init, before, a, v, r, c);
        assert(added.last() == added[added.len() - 1]);
    }
}

/// Writes with distinct positions hit each position of their set once.
pub proof fn lemma_once_counts(added: Seq<Emission>, s: Set<(int, int)>, v: i64, p: (int, int))
    requires
        covers(added, s, v),
        distinct_positions(added),
    ensures
        count_at(added, p) == if s.contains(p) { 1nat } else { 0nat },
    decreases added.len(),
{
    if added.len() == 0 {
    } else {
        let a = added.drop_last();
        let e = added.last();
        assert forall|i: int| 0 <= i < a.len() implies (#[trigger] a[i]).value == v by {
            assert(a[i] == added[i]);
        }
        assert forall|i: int, j: int| 0 <= i < j < a.len() implies pos(#[trigger] a[i]) != pos(#[trigger] a[j]) by {
            assert(a[i] == added[i] && a[j] == added[j]);
        }
        lemma_once_counts(a, positions(a), v, p);
        lemma_positions_index(a);
        if pos(e) == p && positions(a).contains(p) {
            let i = choose|i: int| 0 <= i < a.len() && pos(#[trigger] a[i]) == p;
            assert(a[i] == added[i]);
            assert(pos(added[i]) != pos(added[added.len() - 1]));
        }
    }
}

/// Reading `extends_covering` as a count of writes per pixel.
pub proof fn lemma_extends_hits(before: Seq<Emission>, after: Seq<Emission>, s: Set<(int, int)>, v: i64)
    requires
        extends_once(before, after, s, v),
    ensures
        appends_hits(before, after, v, |p: (int, int)| if s.contains(p) { 1nat } else { 0nat }),
{
    let added = after.skip(before.len() as int);
    assert forall|i: int| before.len() <= i < after.len() implies (#[trigger] after[i]).value == v by {
        assert(added[i - before.len()] == after[i]);
    }
    assert forall|p: (int, int)| #[trigger] count_at(added, p) == (if s.contains(p) { 1nat } else { 0nat }) by {
        lemma_once_counts(added, s, v, p);
    }
}

/// Two runs of distinct writes on disjoint sets make one run on the union.
pub proof fn lemma_once_concat(a: Seq<Emission>, sa: Set<(int, int)>, b: Seq<Emission>, sb: Set<(int, int)>, v: i64)
    requires
        covers(a, sa, v),
        distinct_positions(a),
        covers(b, sb, v),
        distinct_positions(b),
        sa.disjoint(sb),
    ensures
        covers(a + b, sa.union(sb), v),
        distinct_positions(a + b),
{
    lemma_positions_add(a, b);
    lemma_positions_index(a);
    lemma_positions_index(b);
    let ab = a + b;
    assert forall|i: int| 0 <= i < ab.len() implies (#[trigger] ab[i]).value == v by {
        if i < a.len() {
            assert(ab[i] == a[i]);
        } else {
            assert(ab[i] == b[i - a.len()]);
        }
    }
    assert forall|i: int, j: int| 0 <= i < j < ab.len() implies pos(#[trigger] ab[i]) != pos(#[trigger] ab[j]) by {
        if j < a.len() {
            assert(ab[i] == a[i] && ab[j] == a[j]);
        } else if i >= a.len() {
            assert(ab[i] == b[i - a.len()] && ab[j] == b[j - a.len()]);
        } else {
            assert(ab[i] == a[i] && ab[j] == b[j - a.len()]);
            assert(sa.contains(pos(a[i])));
            assert(sb.contains(pos(b[j - a.len()])));
        }
    }
}

pub proof fn lemma_positions_add(a: Seq<Emission>, b: Seq<Emission>)
    ensures
        positions(a + b) == positions(a).union(positions(b)),
    decreases b.len(),
{
    if b.len() == 0 {
        assert(a + b =~= a);
        assert(positions(a).union(Set::empty()) =~= positions(a));
    } else {
        assert((a + b).drop_last() =~= a + b.drop_last());
        assert((a + b).last() == b.last());
        lemma_positions_add(a, b.drop_last());
        assert(positions(a).union(positions(b.drop_last())).insert(pos(b.last())) =~= positions(a).union(positions(b)));
    }
}

/// Counting over a concatenation.
pub proof fn lemma_count_add(a: Seq<Emission>, b: Seq<Emission>, p: (int, int))
    ensures
        count_at(a + b, p) == count_at(a, p) + count_at(b, p),
    decreases b.len(),
{
    if b.len() == 0 {
        assert(a + b =~= a);
    } else {
        assert((a + b).drop_last() =~= a + b.drop_last());
        assert((a + b).last() == b.last());
        lemma_count_add(a, b.drop_last(), p);
    }
}

/// Two runs of writes of `v` in a row add their hits.
pub proof fn lemma_appends_compose(
    a: Seq<Emission>,
    b: Seq<Emission>,
    c: Seq<Emission>,
    v: i64,
    h1: spec_fn((int, int)) -> nat,
    h2: spec_fn((int, int)) -> nat,
)
    requires
        appends_hits(a, b, v, h1),
        appends_hits(b, c, v, h2),
    ensures
        appends_hits(a, c, v, |p: (int, int)| h1(p) + h2(p)),
{
    let ab = b.skip(a.len() as int);
    let bc = c.skip(b.len() as int);
    assert(c.subrange(0, a.len() as int) =~= b.subrange(0, a.len() as int));
    assert(c.skip(a.len() as int) =~= ab + bc);
    assert forall|p: (int, int)| #[trigger] count_at(c.skip(a.len() as int), p) == h1(p) + h2(p) by {
        lemma_count_add(ab, bc, p);
    }
    assert forall|i: int| a.len() <= i < c.len() implies (#[trigger] c[i]).value == v by {
        if i < b.len() {
            assert(c[i] == b[i]);
        }
    }
}

/// Whether `e` comes before pixel `(r, c)` in row-major order.
pub open spec fn precedes(e: Emission, r: int, c: int) -> bool {
    e.row < r || (e.row == r && e.col < c)
}

/// The writes go row by row from the top, left to right within a row.
pub open spec fn row_major(a: Seq<Emission>) -> bool {
    forall|i: int, j: int| 0 <= i < j < a.len() ==> precedes(#[trigger] a[i], (#[trigger] a[j]).row as int, a[j].col as int)
}

/// A covering run followed by a run of distinct writes covers both sets.
pub proof fn lemma_covering_then_once(
    before: Seq<Emission>,
    mid: Seq<Emission>,
    after: Seq<Emission>,
    s: Set<(int, int)>,
    t: Set<(int, int)>,
    v: i64,
)
    requires
        extends_covering(before, mid, s, v),
        extends_once(mid, after, t, v),
    ensures
        extends_covering(before, after, s.union(t), v),
{
    let a = mid.skip(before.len() as int);
    let b = after.skip(mid.len() as int);
    assert(after.skip(before.len() as int) =~= a + b);
    assert(after.subrange(0, before.len() as int) =~= mid.subrange(0, before.len() as int));
    lemma_positions_add(a, b);
    let ab = a + b;
    assert forall|i: int| 0 <= i < ab.len() implies (#[trigger] ab[i]).value == v by {
        if i < a.len() {
            assert(ab[i] == a[i]);
        } else {
            assert(ab[i] == b[i - a.len()]);
        }
    }
}

} // verus!
