//! Reverse breadth-first walk over `calls` edges: the blast radius of a set of
//! symbols. One walk decides the hop set; explore and change reports only
//! format it.

use vstd::prelude::*;
use crate::model::{NodeRow, NodeRowV};
use crate::text::{seq_eq, chars_of};

verus! {

/// Shared hop cap for explore and change reports.
pub const MAX_DEPTH: usize = 4;

/// One `calls` edge with a destination, as the graph store holds it (in
/// store order).
#[derive(Debug, Clone)]
pub struct CallRow {
    pub src_id: String,
    pub dst_id: String,
    pub file_path: String,
    pub line: i64,
    pub conf: String,
    pub reason: String,
}

pub ghost struct CallRowV {
    pub src_id: Seq<char>,
    pub dst_id: Seq<char>,
    pub file_path: Seq<char>,
    pub line: int,
    pub conf: Seq<char>,
    pub reason: Seq<char>,
}

impl View for CallRow {
    type V = CallRowV;

    open spec fn view(&self) -> CallRowV {
        CallRowV {
            src_id: self.src_id@,
            dst_id: self.dst_id@,
            file_path: self.file_path@,
            line: self.line as int,
            conf: self.conf@,
            reason: self.reason@,
        }
    }
}

/// One caller hop. `node` is none when the caller is not a graph node (a
/// module-scope call site); the site fields come from the `calls` edge.
#[derive(Debug, Clone)]
pub struct Hop {
    pub depth: usize,
    pub src_id: String,
    pub node: Option<NodeRow>,
    pub file_path: String,
    pub line: i64,
    pub conf: String,
    pub reason: String,
}

pub ghost struct HopV {
    pub depth: nat,
    pub src_id: Seq<char>,
    pub node: Option<NodeRowV>,
    pub file_path: Seq<char>,
    pub line: int,
    pub conf: Seq<char>,
    pub reason: Seq<char>,
}

impl View for Hop {
    type V = HopV;

    open spec fn view(&self) -> HopV {
        HopV {
            depth: self.depth as nat,
            src_id: self.src_id@,
            node: match self.node {
                Some(n) => Some(n@),
                None => None,
            },
            file_path: self.file_path@,
            line: self.line as int,
            conf: self.conf@,
            reason: self.reason@,
        }
    }
}

pub open spec fn row_views(v: Seq<CallRow>) -> Seq<CallRowV> {
    v.map_values(|r: CallRow| r@)
}

pub open spec fn hop_views(v: Seq<Hop>) -> Seq<HopV> {
    v.map_values(|h: Hop| h@)
}

pub open spec fn node_views(v: Seq<NodeRow>) -> Seq<NodeRowV> {
    v.map_values(|n: NodeRow| n@)
}

/// The first node with this id.
pub open spec fn node_by_id(nodes: Seq<NodeRowV>, id: Seq<char>, n: int) -> Option<NodeRowV>
    decreases n,
{
    if n <= 0 {
        None
    } else {
        match node_by_id(nodes, id, n - 1) {
            Some(x) => Some(x),
            None => if nodes[n - 1].id == id {
                Some(nodes[n - 1])
            } else {
                None
            },
        }
    }
}

pub open spec fn hop_of(r: CallRowV, depth: nat, nodes: Seq<NodeRowV>) -> HopV {
    HopV {
        depth: depth,
        src_id: r.src_id,
        node: node_by_id(nodes, r.src_id, nodes.len() as int),
        file_path: r.file_path,
        line: r.line,
        conf: r.conf,
        reason: r.reason,
    }
}

/// Walk state: ids already reached (seeds first), hops so far, and the ids
/// reached on the level being built.
pub ghost struct Walk {
    pub seen: Seq<Seq<char>>,
    pub out: Seq<HopV>,
    pub next: Seq<Seq<char>>,
}

/// Callers of `cur` among the first `k` rows, each new caller becoming a
/// hop at `depth`.
pub open spec fn visit_rows(
    rows: Seq<CallRowV>,
    nodes: Seq<NodeRowV>,
    cur: Seq<char>,
    depth: nat,
    w: Walk,
    k: int,
) -> Walk
    decreases k,
{
    if k <= 0 {
        w
    } else {
        let w1 = visit_rows(rows, nodes, cur, depth, w, k - 1);
        let r = rows[k - 1];
        if r.dst_id == cur && !w1.seen.contains(r.src_id) {
            Walk {
                seen: w1.seen.push(r.src_id),
                out: w1.out.push(hop_of(r, depth, nodes)),
                next: w1.next.push(r.src_id),
            }
        } else {
            w1
        }
    }
}

/// The first `n` ids of a level, visited in order.
pub open spec fn visit_level(
    rows: Seq<CallRowV>,
    nodes: Seq<NodeRowV>,
    level: Seq<Seq<char>>,
    depth: nat,
    w: Walk,
    n: int,
) -> Walk
    decreases n,
{
    if n <= 0 {
        w
    } else {
        visit_rows(
            rows,
            nodes,
            level[n - 1],
            depth,
            visit_level(rows, nodes, level, depth, w, n - 1),
            rows.len() as int,
        )
    }
}

/// Levels `d`, `d + 1`, … below `max`; level `d` yields hops at depth `d + 1`.
pub open spec fn walk_levels(
    rows: Seq<CallRowV>,
    nodes: Seq<NodeRowV>,
    level: Seq<Seq<char>>,
    d: nat,
    max: nat,
    w: Walk,
) -> Walk
    decreases max - d,
{
    if d >= max {
        w
    } else {
        let w1 = visit_level(
            rows,
            nodes,
            level,
            d + 1,
            Walk { next: Seq::empty(), ..w },
            level.len() as int,
        );
        walk_levels(rows, nodes, w1.next, d + 1, max, w1)
    }
}

/// The hops of the walk from `seeds`, in breadth-first order.
pub open spec fn blast_spec(
    rows: Seq<CallRowV>,
    nodes: Seq<NodeRowV>,
    seeds: Seq<Seq<char>>,
    max: nat,
) -> Seq<HopV> {
    walk_levels(rows, nodes, seeds, 0, max, Walk { seen: seeds, out: Seq::empty(), next: Seq::empty() }).out
}

// ------------------------------------------------------------------- law ---

pub open spec fn hop_ids(out: Seq<HopV>) -> Seq<Seq<char>> {
    out.map_values(|h: HopV| h.src_id)
}

/// What every walk state keeps: `seen` is the seeds then the hops' callers,
/// the callers are all different and none is a seed, hop depths stay in
/// `1..=max` and never decrease, and the level being built is the suffix of
/// the callers at the current depth.
pub open spec fn walk_inv(w: Walk, seeds: Seq<Seq<char>>) -> bool {
    &&& w.seen == seeds + hop_ids(w.out)
    &&& forall|i: int, j: int|
        0 <= i < j < w.out.len() ==> #[trigger] w.out[i].src_id != #[trigger] w.out[j].src_id
    &&& forall|i: int, j: int|
        0 <= i < w.out.len() && 0 <= j < seeds.len() ==> #[trigger] w.out[i].src_id != #[trigger] seeds[j]
}

pub open spec fn depths_ok(out: Seq<HopV>, max: nat) -> bool {
    &&& forall|i: int| 0 <= i < out.len() ==> 1 <= #[trigger] out[i].depth <= max
    &&& forall|i: int, j: int| 0 <= i < j < out.len() ==> #[trigger] out[i].depth <= #[trigger] out[j].depth
}

proof fn lemma_visit_rows_inv(
    rows: Seq<CallRowV>,
    nodes: Seq<NodeRowV>,
    cur: Seq<char>,
    depth: nat,
    w: Walk,
    k: int,
    seeds: Seq<Seq<char>>,
    max: nat,
)
    requires
        walk_inv(w, seeds),
        1 <= depth <= max,
        depths_ok(w.out, depth),
        k <= rows.len(),
    ensures
        walk_inv(visit_rows(rows, nodes, cur, depth, w, k), seeds),
        depths_ok(visit_rows(rows, nodes, cur, depth, w, k).out, depth),
        visit_rows(rows, nodes, cur, depth, w, k).out.len() - w.out.len() == visit_rows(
            rows,
            nodes,
            cur,
            depth,
            w,
            k,
        ).next.len() - w.next.len(),
    decreases k,
{
    if k > 0 {
        lemma_visit_rows_inv(rows, nodes, cur, depth, w, k - 1, seeds, max);
        let w1 = visit_rows(rows, nodes, cur, depth, w, k - 1);
        let r = rows[k - 1];
        if r.dst_id == cur && !w1.seen.contains(r.src_id) {
            let w2 = visit_rows(rows, nodes, cur, depth, w, k);
            let h = hop_of(r, depth, nodes);
            assert(w2.out == w1.out.push(h));
            assert(hop_ids(w2.out) =~= hop_ids(w1.out).push(r.src_id));
            assert(w2.seen =~= seeds + hop_ids(w2.out));
            assert forall|i: int| 0 <= i < w1.out.len() implies #[trigger] w1.out[i].src_id
                != r.src_id by {
                assert(w1.seen[seeds.len() + i] == w1.out[i].src_id);
            }
            assert forall|j: int| 0 <= j < seeds.len() implies r.src_id != #[trigger] seeds[j] by {
                assert(w1.seen[j] == seeds[j]);
            }
            assert forall|i: int, j: int| 0 <= i < j < w2.out.len() implies #[trigger] w2.out[i].src_id
                != #[trigger] w2.out[j].src_id by {
                if j == w2.out.len() - 1 {
                    assert(w2.out[i] == w1.out[i]);
                } else {
                    assert(w2.out[i] == w1.out[i]);
                    assert(w2.out[j] == w1.out[j]);
                }
            }
            assert forall|i: int, j: int|
                0 <= i < w2.out.len() && 0 <= j < seeds.len() implies #[trigger] w2.out[i].src_id
                != #[trigger] seeds[j] by {
                if i < w1.out.len() {
                    assert(w2.out[i] == w1.out[i]);
                }
            }
            assert forall|i: int, j: int| 0 <= i < j < w2.out.len() implies #[trigger] w2.out[i].depth
                <= #[trigger] w2.out[j].depth by {
                if j < w1.out.len() {
                    assert(w2.out[i] == w1.out[i]);
                    assert(w2.out[j] == w1.out[j]);
                } else {
                    assert(w2.out[i] == w1.out[i] || i == w2.out.len() - 1);
                }
            }
        }
    }
}

proof fn lemma_visit_level_inv(
    rows: Seq<CallRowV>,
    nodes: Seq<NodeRowV>,
    level: Seq<Seq<char>>,
    depth: nat,
    w: Walk,
    n: int,
    seeds: Seq<Seq<char>>,
    max: nat,
)
    requires
        walk_inv(w, seeds),
        1 <= depth <= max,
        depths_ok(w.out, depth),
        n <= level.len(),
    ensures
        walk_inv(visit_level(rows, nodes, level, depth, w, n), seeds),
        depths_ok(visit_level(rows, nodes, level, depth, w, n).out, depth),
    decreases n,
{
    if n > 0 {
        lemma_visit_level_inv(rows, nodes, level, depth, w, n - 1, seeds, max);
        lemma_visit_rows_inv(
            rows,
            nodes,
            level[n - 1],
            depth,
            visit_level(rows, nodes, level, depth, w, n - 1),
            rows.len() as int,
            seeds,
            max,
        );
    }
}

proof fn lemma_depths_raise(out: Seq<HopV>, a: nat, b: nat)
    requires
        depths_ok(out, a),
        a <= b,
    ensures
        depths_ok(out, b),
{
}

proof fn lemma_walk_levels_inv(
    rows: Seq<CallRowV>,
    nodes: Seq<NodeRowV>,
    level: Seq<Seq<char>>,
    d: nat,
    max: nat,
    w: Walk,
    seeds: Seq<Seq<char>>,
)
    requires
        walk_inv(w, seeds),
        depths_ok(w.out, if d == 0 {
            1
        } else {
            d
        }),
        d <= max,
    ensures
        walk_inv(walk_levels(rows, nodes, level, d, max, w), seeds),
        depths_ok(walk_levels(rows, nodes, level, d, max, w).out, if max == 0 {
            1
        } else {
            max
        }),
    decreases max - d,
{
    if d >= max {
        if max > 0 {
            lemma_depths_raise(w.out, if d == 0 {
                1
            } else {
                d
            }, max);
        }
    } else {
        let w0 = Walk { next: Seq::empty(), ..w };
        lemma_depths_raise(w.out, if d == 0 {
            1
        } else {
            d
        }, d + 1);
        lemma_visit_level_inv(rows, nodes, level, d + 1, w0, level.len() as int, seeds, max);
        let w1 = visit_level(rows, nodes, level, d + 1, w0, level.len() as int);
        lemma_walk_levels_inv(rows, nodes, w1.next, d + 1, max, w1, seeds);
    }
}

/// The walk never reports a seed, reports each caller at most once, and
/// reports depths between 1 and `max` in non-decreasing order.
pub proof fn lemma_blast_hops(
    rows: Seq<CallRowV>,
    nodes: Seq<NodeRowV>,
    seeds: Seq<Seq<char>>,
    max: nat,
)
    ensures
        forall|i: int, j: int|
            0 <= i < blast_spec(rows, nodes, seeds, max).len() && 0 <= j < seeds.len()
                ==> #[trigger] blast_spec(rows, nodes, seeds, max)[i].src_id != #[trigger] seeds[j],
        forall|i: int, j: int|
            0 <= i < j < blast_spec(rows, nodes, seeds, max).len() ==> #[trigger] blast_spec(
                rows,
                nodes,
                seeds,
                max,
            )[i].src_id != #[trigger] blast_spec(rows, nodes, seeds, max)[j].src_id,
        forall|i: int|
            0 <= i < blast_spec(rows, nodes, seeds, max).len() ==> 1 <= #[trigger] blast_spec(
                rows,
                nodes,
                seeds,
                max,
            )[i].depth <= max,
        forall|i: int, j: int|
            0 <= i < j < blast_spec(rows, nodes, seeds, max).len() ==> #[trigger] blast_spec(
                rows,
                nodes,
                seeds,
                max,
            )[i].depth <= #[trigger] blast_spec(rows, nodes, seeds, max)[j].depth,
{
    let w = Walk { seen: seeds, out: Seq::empty(), next: Seq::empty() };
    assert(hop_ids(w.out) =~= Seq::<Seq<char>>::empty());
    assert(w.seen =~= seeds + hop_ids(w.out));
    lemma_walk_levels_inv(rows, nodes, seeds, 0, max, w, seeds);
    if max == 0 {
        assert(blast_spec(rows, nodes, seeds, max) == w.out);
    }
}

/// `w2` extends `w`: its reached ids and hops start with `w`'s, and every
/// hop added is at `depth`.
pub open spec fn extends(w: Walk, w2: Walk, depth: nat) -> bool {
    &&& w.seen.len() <= w2.seen.len()
    &&& forall|i: int| 0 <= i < w.seen.len() ==> #[trigger] w2.seen[i] == w.seen[i]
    &&& w.out.len() <= w2.out.len()
    &&& forall|i: int| 0 <= i < w.out.len() ==> #[trigger] w2.out[i] == w.out[i]
    &&& forall|i: int| w.out.len() <= i < w2.out.len() ==> (#[trigger] w2.out[i]).depth == depth
}

proof fn lemma_extends_keeps_reached(w: Walk, w2: Walk, depth: nat, x: Seq<char>)
    requires
        extends(w, w2, depth),
        w.seen.contains(x),
    ensures
        w2.seen.contains(x),
{
    let i = choose|i: int| 0 <= i < w.seen.len() && w.seen[i] == x;
    assert(w2.seen[i] == x);
}

proof fn lemma_visit_rows_reaches(
    rows: Seq<CallRowV>,
    nodes: Seq<NodeRowV>,
    cur: Seq<char>,
    depth: nat,
    w: Walk,
    k: int,
)
    requires
        k <= rows.len(),
    ensures
        extends(w, visit_rows(rows, nodes, cur, depth, w, k), depth),
        forall|j: int|
            0 <= j < k && #[trigger] rows[j].dst_id == cur ==> visit_rows(rows, nodes, cur, depth, w, k).seen.contains(
                rows[j].src_id,
            ),
    decreases k,
{
    if k > 0 {
        lemma_visit_rows_reaches(rows, nodes, cur, depth, w, k - 1);
        let w1 = visit_rows(rows, nodes, cur, depth, w, k - 1);
        let w2 = visit_rows(rows, nodes, cur, depth, w, k);
        let r = rows[k - 1];
        if r.dst_id == cur && !w1.seen.contains(r.src_id) {
            assert(w2.seen == w1.seen.push(r.src_id));
            assert(w2.out == w1.out.push(hop_of(r, depth, nodes)));
            assert(extends(w1, w2, depth));
            assert(w2.seen[w1.seen.len() as int] == r.src_id);
        } else {
            assert(w2 == w1);
        }
        assert(extends(w, w2, depth)) by {
            assert forall|i: int| 0 <= i < w.seen.len() implies #[trigger] w2.seen[i] == w.seen[i] by {
                assert(w1.seen[i] == w.seen[i]);
            }
            assert forall|i: int| 0 <= i < w.out.len() implies #[trigger] w2.out[i] == w.out[i] by {
                assert(w1.out[i] == w.out[i]);
            }
            assert forall|i: int| w.out.len() <= i < w2.out.len() implies (#[trigger] w2.out[i]).depth == depth by {
                if i < w1.out.len() {
                    assert(w2.out[i] == w1.out[i]);
                }
            }
        }
        assert forall|j: int| 0 <= j < k && #[trigger] rows[j].dst_id == cur implies w2.seen.contains(rows[j].src_id) by {
            if j < k - 1 {
                assert(w1.seen.contains(rows[j].src_id));
                lemma_extends_keeps_reached(w1, w2, depth, rows[j].src_id);
            } else if w1.seen.contains(r.src_id) {
                lemma_extends_keeps_reached(w1, w2, depth, r.src_id);
            }
        }
    }
}

proof fn lemma_extends_trans(a: Walk, b: Walk, c: Walk, depth: nat)
    requires
        extends(a, b, depth),
        extends(b, c, depth),
    ensures
        extends(a, c, depth),
{
    assert forall|i: int| 0 <= i < a.seen.len() implies #[trigger] c.seen[i] == a.seen[i] by {
        assert(b.seen[i] == a.seen[i]);
    }
    assert forall|i: int| 0 <= i < a.out.len() implies #[trigger] c.out[i] == a.out[i] by {
        assert(b.out[i] == a.out[i]);
    }
    assert forall|i: int| a.out.len() <= i < c.out.len() implies (#[trigger] c.out[i]).depth == depth by {
        if i < b.out.len() {
            assert(c.out[i] == b.out[i]);
        }
    }
}

proof fn lemma_visit_level_reaches(
    rows: Seq<CallRowV>,
    nodes: Seq<NodeRowV>,
    level: Seq<Seq<char>>,
    depth: nat,
    w: Walk,
    n: int,
)
    requires
        n <= level.len(),
    ensures
        extends(w, visit_level(rows, nodes, level, depth, w, n), depth),
        forall|a: int, j: int|
            0 <= a < n && 0 <= j < rows.len() && #[trigger] rows[j].dst_id == #[trigger] level[a]
                ==> visit_level(rows, nodes, level, depth, w, n).seen.contains(rows[j].src_id),
    decreases n,
{
    if n <= 0 {
        assert(extends(w, w, depth));
    } else {
        lemma_visit_level_reaches(rows, nodes, level, depth, w, n - 1);
        let wp = visit_level(rows, nodes, level, depth, w, n - 1);
        let wn = visit_level(rows, nodes, level, depth, w, n);
        lemma_visit_rows_reaches(rows, nodes, level[n - 1], depth, wp, rows.len() as int);
        assert(wn == visit_rows(rows, nodes, level[n - 1], depth, wp, rows.len() as int));
        lemma_extends_trans(w, wp, wn, depth);
        assert forall|a: int, j: int|
            0 <= a < n && 0 <= j < rows.len() && #[trigger] rows[j].dst_id == #[trigger] level[a] implies wn.seen.contains(
            rows[j].src_id,
        ) by {
            if a < n - 1 {
                assert(wp.seen.contains(rows[j].src_id));
                lemma_extends_keeps_reached(wp, wn, depth, rows[j].src_id);
            } else {
                assert(rows[j].dst_id == level[n - 1]);
            }
        }
    }
}

proof fn lemma_walk_levels_keeps_out(
    rows: Seq<CallRowV>,
    nodes: Seq<NodeRowV>,
    level: Seq<Seq<char>>,
    d: nat,
    max: nat,
    w: Walk,
)
    ensures
        w.out.len() <= walk_levels(rows, nodes, level, d, max, w).out.len(),
        forall|i: int| 0 <= i < w.out.len() ==> #[trigger] walk_levels(rows, nodes, level, d, max, w).out[i] == w.out[i],
    decreases max - d,
{
    if d < max {
        let w0 = Walk { next: Seq::empty(), ..w };
        lemma_visit_level_reaches(rows, nodes, level, d + 1, w0, level.len() as int);
        let w1 = visit_level(rows, nodes, level, d + 1, w0, level.len() as int);
        lemma_walk_levels_keeps_out(rows, nodes, w1.next, d + 1, max, w1);
        assert forall|i: int| 0 <= i < w.out.len() implies #[trigger] walk_levels(rows, nodes, level, d, max, w).out[i]
            == w.out[i] by {
            assert(w1.out[i] == w0.out[i]);
        }
    }
}

/// Every seed's callers are looked up: whenever `max` allows a hop at all,
/// each caller (not itself a seed) of any seed is reported, at depth 1.
pub proof fn lemma_every_seed_caller_is_a_first_hop(
    rows: Seq<CallRowV>,
    nodes: Seq<NodeRowV>,
    seeds: Seq<Seq<char>>,
    max: nat,
    a: int,
    j: int,
)
    requires
        max >= 1,
        0 <= a < seeds.len(),
        0 <= j < rows.len(),
        rows[j].dst_id == seeds[a],
        !seeds.contains(rows[j].src_id),
    ensures
        exists|h: int|
            0 <= h < blast_spec(rows, nodes, seeds, max).len() && (#[trigger] blast_spec(rows, nodes, seeds, max)[h]).src_id
                == rows[j].src_id && blast_spec(rows, nodes, seeds, max)[h].depth == 1,
{
    let w = Walk { seen: seeds, out: Seq::empty(), next: Seq::empty() };
    let w0 = Walk { next: Seq::empty(), ..w };
    assert(w0 == w);
    assert(hop_ids(w.out) =~= Seq::<Seq<char>>::empty());
    assert(w.seen =~= seeds + hop_ids(w.out));
    lemma_visit_level_reaches(rows, nodes, seeds, 1, w0, seeds.len() as int);
    lemma_visit_level_inv(rows, nodes, seeds, 1, w0, seeds.len() as int, seeds, 1);
    let w1 = visit_level(rows, nodes, seeds, 1, w0, seeds.len() as int);
    let x = rows[j].src_id;
    assert(rows[j].dst_id == seeds[a]);
    assert(w1.seen.contains(x));
    let s = choose|s: int| 0 <= s < w1.seen.len() && w1.seen[s] == x;
    assert(w1.seen == seeds + hop_ids(w1.out));
    if s < seeds.len() {
        assert(seeds[s] == x);
        assert(seeds.contains(x));
    }
    let k = s - seeds.len();
    assert(hop_ids(w1.out)[k] == x);
    assert(w1.out[k].src_id == x);
    assert(w1.out[k].depth == 1);
    lemma_walk_levels_keeps_out(rows, nodes, w1.next, 1, max, w1);
    let fin = walk_levels(rows, nodes, w1.next, 1, max, w1);
    assert(blast_spec(rows, nodes, seeds, max) == fin.out);
    assert(fin.out[k] == w1.out[k]);
}

/// `x` is reached at `depth`: a seed when `depth` is 0, else the caller
/// reported by some hop at that depth.
pub open spec fn reached_at(out: Seq<HopV>, seeds: Seq<Seq<char>>, x: Seq<char>, depth: nat) -> bool {
    if depth == 0 {
        seeds.contains(x)
    } else {
        exists|k: int| 0 <= k < out.len() && (#[trigger] out[k]).src_id == x && out[k].depth == depth
    }
}

/// Hop `h` reports row `j`: the row's caller with its node, the row's call
/// site and confidence, and the row's callee reached one level up.
pub open spec fn hop_follows_row(
    rows: Seq<CallRowV>,
    nodes: Seq<NodeRowV>,
    out: Seq<HopV>,
    seeds: Seq<Seq<char>>,
    h: HopV,
    j: int,
) -> bool {
    &&& 0 <= j < rows.len()
    &&& h.src_id == rows[j].src_id
    &&& h.node == node_by_id(nodes, rows[j].src_id, nodes.len() as int)
    &&& h.file_path == rows[j].file_path
    &&& h.line == rows[j].line
    &&& h.conf == rows[j].conf
    &&& h.reason == rows[j].reason
    &&& h.depth >= 1
    &&& reached_at(out, seeds, rows[j].dst_id, (h.depth - 1) as nat)
}

/// Hop `h` reports some row.
pub open spec fn hop_has_row(
    rows: Seq<CallRowV>,
    nodes: Seq<NodeRowV>,
    out: Seq<HopV>,
    seeds: Seq<Seq<char>>,
    h: HopV,
) -> bool {
    exists|j: int| #[trigger] hop_follows_row(rows, nodes, out, seeds, h, j)
}

/// Every hop of `out` reports some row.
pub open spec fn hops_follow_rows(
    rows: Seq<CallRowV>,
    nodes: Seq<NodeRowV>,
    out: Seq<HopV>,
    seeds: Seq<Seq<char>>,
) -> bool {
    forall|i: int| 0 <= i < out.len() ==> #[trigger] hop_has_row(rows, nodes, out, seeds, out[i])
}

/// Every id of the level being built is reached at `depth`.
pub open spec fn next_reached(w: Walk, seeds: Seq<Seq<char>>, depth: nat) -> bool {
    forall|n: int| 0 <= n < w.next.len() ==> reached_at(w.out, seeds, #[trigger] w.next[n], depth)
}

proof fn lemma_reached_grows(out: Seq<HopV>, out2: Seq<HopV>, seeds: Seq<Seq<char>>, x: Seq<char>, d: nat)
    requires
        out.len() <= out2.len(),
        forall|i: int| 0 <= i < out.len() ==> #[trigger] out2[i] == out[i],
        reached_at(out, seeds, x, d),
    ensures
        reached_at(out2, seeds, x, d),
{
    if d > 0 {
        let k = choose|k: int| 0 <= k < out.len() && (#[trigger] out[k]).src_id == x && out[k].depth == d;
        assert(out2[k] == out[k]);
    }
}

proof fn lemma_follows_grows(
    rows: Seq<CallRowV>,
    nodes: Seq<NodeRowV>,
    out: Seq<HopV>,
    out2: Seq<HopV>,
    seeds: Seq<Seq<char>>,
)
    requires
        out.len() <= out2.len(),
        forall|i: int| 0 <= i < out.len() ==> #[trigger] out2[i] == out[i],
        hops_follow_rows(rows, nodes, out, seeds),
    ensures
        forall|i: int| 0 <= i < out.len() ==> #[trigger] hop_has_row(rows, nodes, out2, seeds, out2[i]),
{
    assert forall|i: int| 0 <= i < out.len() implies #[trigger] hop_has_row(rows, nodes, out2, seeds, out2[i]) by {
        assert(hop_has_row(rows, nodes, out, seeds, out[i]));
        let j = choose|j: int| hop_follows_row(rows, nodes, out, seeds, out[i], j);
        assert(out2[i] == out[i]);
        lemma_reached_grows(out, out2, seeds, rows[j].dst_id, (out[i].depth - 1) as nat);
        assert(hop_follows_row(rows, nodes, out2, seeds, out2[i], j));
    }
}

proof fn lemma_visit_rows_sound(
    rows: Seq<CallRowV>,
    nodes: Seq<NodeRowV>,
    cur: Seq<char>,
    depth: nat,
    w: Walk,
    k: int,
    seeds: Seq<Seq<char>>,
)
    requires
        k <= rows.len(),
        depth >= 1,
        hops_follow_rows(rows, nodes, w.out, seeds),
        reached_at(w.out, seeds, cur, (depth - 1) as nat),
        next_reached(w, seeds, depth),
    ensures
        hops_follow_rows(rows, nodes, visit_rows(rows, nodes, cur, depth, w, k).out, seeds),
        next_reached(visit_rows(rows, nodes, cur, depth, w, k), seeds, depth),
    decreases k,
{
    if k > 0 {
        lemma_visit_rows_sound(rows, nodes, cur, depth, w, k - 1, seeds);
        lemma_visit_rows_reaches(rows, nodes, cur, depth, w, k - 1);
        let w1 = visit_rows(rows, nodes, cur, depth, w, k - 1);
        let w2 = visit_rows(rows, nodes, cur, depth, w, k);
        let r = rows[k - 1];
        if r.dst_id == cur && !w1.seen.contains(r.src_id) {
            let h = hop_of(r, depth, nodes);
            assert(w2.out == w1.out.push(h));
            assert(w2.next == w1.next.push(r.src_id));
            assert forall|i: int| 0 <= i < w1.out.len() implies #[trigger] w2.out[i] == w1.out[i] by {}
            lemma_follows_grows(rows, nodes, w1.out, w2.out, seeds);
            lemma_reached_grows(w.out, w1.out, seeds, cur, (depth - 1) as nat);
            lemma_reached_grows(w1.out, w2.out, seeds, cur, (depth - 1) as nat);
            assert(hop_follows_row(rows, nodes, w2.out, seeds, w2.out[w1.out.len() as int], k - 1));
            assert forall|i: int| 0 <= i < w2.out.len() implies #[trigger] hop_has_row(
                rows,
                nodes,
                w2.out,
                seeds,
                w2.out[i],
            ) by {
                if i == w1.out.len() {
                    assert(hop_follows_row(rows, nodes, w2.out, seeds, w2.out[i], k - 1));
                }
            }
            assert forall|n: int| 0 <= n < w2.next.len() implies reached_at(
                w2.out,
                seeds,
                #[trigger] w2.next[n],
                depth,
            ) by {
                if n < w1.next.len() {
                    assert(w2.next[n] == w1.next[n]);
                    lemma_reached_grows(w1.out, w2.out, seeds, w1.next[n], depth);
                } else {
                    let q = w1.out.len() as int;
                    assert(w2.out[q].src_id == w2.next[n] && w2.out[q].depth == depth);
                }
            }
        } else {
            assert(w2 == w1);
        }
    }
}

proof fn lemma_visit_level_sound(
    rows: Seq<CallRowV>,
    nodes: Seq<NodeRowV>,
    level: Seq<Seq<char>>,
    depth: nat,
    w: Walk,
    n: int,
    seeds: Seq<Seq<char>>,
)
    requires
        n <= level.len(),
        depth >= 1,
        hops_follow_rows(rows, nodes, w.out, seeds),
        forall|a: int| 0 <= a < level.len() ==> reached_at(w.out, seeds, #[trigger] level[a], (depth - 1) as nat),
        next_reached(w, seeds, depth),
    ensures
        hops_follow_rows(rows, nodes, visit_level(rows, nodes, level, depth, w, n).out, seeds),
        next_reached(visit_level(rows, nodes, level, depth, w, n), seeds, depth),
    decreases n,
{
    if n > 0 {
        lemma_visit_level_sound(rows, nodes, level, depth, w, n - 1, seeds);
        lemma_visit_level_reaches(rows, nodes, level, depth, w, n - 1);
        let wp = visit_level(rows, nodes, level, depth, w, n - 1);
        lemma_reached_grows(w.out, wp.out, seeds, level[n - 1], (depth - 1) as nat);
        lemma_visit_rows_sound(rows, nodes, level[n - 1], depth, wp, rows.len() as int, seeds);
    }
}

proof fn lemma_walk_levels_sound(
    rows: Seq<CallRowV>,
    nodes: Seq<NodeRowV>,
    level: Seq<Seq<char>>,
    d: nat,
    max: nat,
    w: Walk,
    seeds: Seq<Seq<char>>,
)
    requires
        hops_follow_rows(rows, nodes, w.out, seeds),
        forall|a: int| 0 <= a < level.len() ==> reached_at(w.out, seeds, #[trigger] level[a], d),
    ensures
        hops_follow_rows(rows, nodes, walk_levels(rows, nodes, level, d, max, w).out, seeds),
    decreases max - d,
{
    if d < max {
        let w0 = Walk { next: Seq::empty(), ..w };
        lemma_visit_level_sound(rows, nodes, level, d + 1, w0, level.len() as int, seeds);
        let w1 = visit_level(rows, nodes, level, d + 1, w0, level.len() as int);
        lemma_walk_levels_sound(rows, nodes, w1.next, d + 1, max, w1, seeds);
    }
}

/// Every hop follows a call: it reports some `calls` row whose caller it
/// names, with that row's call site and confidence and the caller's node,
/// and whose callee is a seed (for a hop at depth 1) or the caller of a hop
/// one level closer to the seeds.
pub proof fn lemma_each_hop_follows_a_call(
    rows: Seq<CallRowV>,
    nodes: Seq<NodeRowV>,
    seeds: Seq<Seq<char>>,
    max: nat,
)
    ensures
        hops_follow_rows(rows, nodes, blast_spec(rows, nodes, seeds, max), seeds),
{
    let w = Walk { seen: seeds, out: Seq::empty(), next: Seq::empty() };
    assert forall|a: int| 0 <= a < seeds.len() implies reached_at(w.out, seeds, #[trigger] seeds[a], 0) by {
        assert(seeds[a] == seeds[a]);
    }
    lemma_walk_levels_sound(rows, nodes, seeds, 0, max, w, seeds);
}

/// `x` is a seed or the caller reported by some hop at depth `bound` or less.
pub open spec fn caller_in(out: Seq<HopV>, seeds: Seq<Seq<char>>, x: Seq<char>, bound: nat) -> bool {
    ||| seeds.contains(x)
    ||| exists|k: int| 0 <= k < out.len() && (#[trigger] out[k]).src_id == x && out[k].depth <= bound
}

/// Every caller of a hop below depth `d` is a seed or a hop at most one
/// level further out.
pub open spec fn callers_reported(rows: Seq<CallRowV>, out: Seq<HopV>, seeds: Seq<Seq<char>>, d: nat) -> bool {
    forall|i: int, j: int|
        #![trigger rows[j], out[i]]
        0 <= i < out.len() && out[i].depth < d && 0 <= j < rows.len() && rows[j].dst_id == out[i].src_id
            ==> caller_in(out, seeds, rows[j].src_id, out[i].depth + 1)
}

proof fn lemma_caller_in_grows(out: Seq<HopV>, out2: Seq<HopV>, seeds: Seq<Seq<char>>, x: Seq<char>, b: nat)
    requires
        out.len() <= out2.len(),
        forall|i: int| 0 <= i < out.len() ==> #[trigger] out2[i] == out[i],
        caller_in(out, seeds, x, b),
    ensures
        caller_in(out2, seeds, x, b),
{
    if !seeds.contains(x) {
        let k = choose|k: int| 0 <= k < out.len() && (#[trigger] out[k]).src_id == x && out[k].depth <= b;
        assert(out2[k] == out[k]);
    }
}

proof fn lemma_visit_rows_next(
    rows: Seq<CallRowV>,
    nodes: Seq<NodeRowV>,
    cur: Seq<char>,
    depth: nat,
    w: Walk,
    k: int,
)
    requires
        k <= rows.len(),
    ensures
        w.next.len() <= visit_rows(rows, nodes, cur, depth, w, k).next.len(),
        forall|n: int| 0 <= n < w.next.len() ==> #[trigger] visit_rows(rows, nodes, cur, depth, w, k).next[n] == w.next[n],
        forall|i: int|
            w.out.len() <= i < visit_rows(rows, nodes, cur, depth, w, k).out.len() ==> visit_rows(
                rows,
                nodes,
                cur,
                depth,
                w,
                k,
            ).next.contains(#[trigger] visit_rows(rows, nodes, cur, depth, w, k).out[i].src_id),
    decreases k,
{
    if k > 0 {
        lemma_visit_rows_next(rows, nodes, cur, depth, w, k - 1);
        lemma_visit_rows_reaches(rows, nodes, cur, depth, w, k - 1);
        let w1 = visit_rows(rows, nodes, cur, depth, w, k - 1);
        let w2 = visit_rows(rows, nodes, cur, depth, w, k);
        let r = rows[k - 1];
        if r.dst_id == cur && !w1.seen.contains(r.src_id) {
            assert(w2.out == w1.out.push(hop_of(r, depth, nodes)));
            assert(w2.next == w1.next.push(r.src_id));
            assert forall|n: int| 0 <= n < w.next.len() implies #[trigger] w2.next[n] == w.next[n] by {
                assert(w1.next[n] == w.next[n]);
            }
            assert forall|i: int| w.out.len() <= i < w2.out.len() implies w2.next.contains(
                #[trigger] w2.out[i].src_id,
            ) by {
                if i < w1.out.len() {
                    assert(w2.out[i] == w1.out[i]);
                    assert(w1.next.contains(w1.out[i].src_id));
                    let n = choose|n: int| 0 <= n < w1.next.len() && w1.next[n] == w1.out[i].src_id;
                    assert(w2.next[n] == w1.next[n]);
                } else {
                    assert(w2.next[w1.next.len() as int] == r.src_id);
                }
            }
        } else {
            assert(w2 == w1);
        }
    }
}

proof fn lemma_visit_level_next(
    rows: Seq<CallRowV>,
    nodes: Seq<NodeRowV>,
    level: Seq<Seq<char>>,
    depth: nat,
    w: Walk,
    n: int,
)
    requires
        n <= level.len(),
    ensures
        w.next.len() <= visit_level(rows, nodes, level, depth, w, n).next.len(),
        forall|m: int| 0 <= m < w.next.len() ==> #[trigger] visit_level(rows, nodes, level, depth, w, n).next[m] == w.next[m],
        forall|i: int|
            w.out.len() <= i < visit_level(rows, nodes, level, depth, w, n).out.len() ==> visit_level(
                rows,
                nodes,
                level,
                depth,
                w,
                n,
            ).next.contains(#[trigger] visit_level(rows, nodes, level, depth, w, n).out[i].src_id),
    decreases n,
{
    if n > 0 {
        lemma_visit_level_next(rows, nodes, level, depth, w, n - 1);
        lemma_visit_level_reaches(rows, nodes, level, depth, w, n - 1);
        let wp = visit_level(rows, nodes, level, depth, w, n - 1);
        let wn = visit_level(rows, nodes, level, depth, w, n);
        lemma_visit_rows_next(rows, nodes, level[n - 1], depth, wp, rows.len() as int);
        lemma_visit_rows_reaches(rows, nodes, level[n - 1], depth, wp, rows.len() as int);
        assert(wn == visit_rows(rows, nodes, level[n - 1], depth, wp, rows.len() as int));
        assert forall|m: int| 0 <= m < w.next.len() implies #[trigger] wn.next[m] == w.next[m] by {
            assert(wp.next[m] == w.next[m]);
        }
        assert forall|i: int| w.out.len() <= i < wn.out.len() implies wn.next.contains(#[trigger] wn.out[i].src_id) by {
            if i < wp.out.len() {
                assert(wn.out[i] == wp.out[i]);
                assert(wp.next.contains(wp.out[i].src_id));
                let m = choose|m: int| 0 <= m < wp.next.len() && wp.next[m] == wp.out[i].src_id;
                assert(wn.next[m] == wp.next[m]);
            }
        }
    }
}

proof fn lemma_walk_levels_closed(
    rows: Seq<CallRowV>,
    nodes: Seq<NodeRowV>,
    level: Seq<Seq<char>>,
    d: nat,
    max: nat,
    w: Walk,
    seeds: Seq<Seq<char>>,
)
    requires
        d <= max,
        walk_inv(w, seeds),
        d == 0 ==> w.out.len() == 0,
        d > 0 ==> depths_ok(w.out, d),
        forall|i: int| 0 <= i < w.out.len() && (#[trigger] w.out[i]).depth == d ==> level.contains(w.out[i].src_id),
        callers_reported(rows, w.out, seeds, d),
    ensures
        callers_reported(rows, walk_levels(rows, nodes, level, d, max, w).out, seeds, max),
    decreases max - d,
{
    if d < max {
        let w0 = Walk { next: Seq::empty(), ..w };
        if d > 0 {
            lemma_depths_raise(w.out, d, d + 1);
        }
        lemma_visit_level_reaches(rows, nodes, level, d + 1, w0, level.len() as int);
        lemma_visit_level_inv(rows, nodes, level, d + 1, w0, level.len() as int, seeds, max);
        lemma_visit_level_next(rows, nodes, level, d + 1, w0, level.len() as int);
        let w1 = visit_level(rows, nodes, level, d + 1, w0, level.len() as int);
        assert forall|i: int| 0 <= i < w1.out.len() && (#[trigger] w1.out[i]).depth == d + 1 implies w1.next.contains(
            w1.out[i].src_id,
        ) by {
            if i < w.out.len() {
                assert(w1.out[i] == w.out[i]);
            }
        }
        assert forall|i: int, j: int|
            #![trigger rows[j], w1.out[i]]
            0 <= i < w1.out.len() && w1.out[i].depth < d + 1 && 0 <= j < rows.len() && rows[j].dst_id
                == w1.out[i].src_id implies caller_in(w1.out, seeds, rows[j].src_id, w1.out[i].depth + 1) by {
            assert(i < w.out.len());
            assert(w1.out[i] == w.out[i]);
            if w.out[i].depth < d {
                assert(caller_in(w.out, seeds, rows[j].src_id, w.out[i].depth + 1));
                lemma_caller_in_grows(w.out, w1.out, seeds, rows[j].src_id, w.out[i].depth + 1);
            } else {
                assert(level.contains(w.out[i].src_id));
                let a = choose|a: int| 0 <= a < level.len() && level[a] == w.out[i].src_id;
                assert(rows[j].dst_id == level[a]);
                let x = rows[j].src_id;
                assert(w1.seen.contains(x));
                let s = choose|s: int| 0 <= s < w1.seen.len() && w1.seen[s] == x;
                assert(w1.seen == seeds + hop_ids(w1.out));
                if s < seeds.len() {
                    assert(seeds[s] == x);
                } else {
                    let q = s - seeds.len();
                    assert(hop_ids(w1.out)[q] == x);
                    assert(w1.out[q].src_id == x);
                    assert(w1.out[q].depth <= d + 1);
                }
            }
        }
        lemma_walk_levels_closed(rows, nodes, w1.next, d + 1, max, w1, seeds);
    }
}

/// Every caller of a reported hop is looked up in turn: while `max` allows a
/// further level, each caller of a hop at depth `d` is a seed or is reported
/// at depth `d + 1` or less.
pub proof fn lemma_every_hop_caller_is_reported(
    rows: Seq<CallRowV>,
    nodes: Seq<NodeRowV>,
    seeds: Seq<Seq<char>>,
    max: nat,
    i: int,
    j: int,
)
    requires
        0 <= i < blast_spec(rows, nodes, seeds, max).len(),
        blast_spec(rows, nodes, seeds, max)[i].depth < max,
        0 <= j < rows.len(),
        rows[j].dst_id == blast_spec(rows, nodes, seeds, max)[i].src_id,
    ensures
        seeds.contains(rows[j].src_id) || exists|h: int|
            0 <= h < blast_spec(rows, nodes, seeds, max).len()
                && (#[trigger] blast_spec(rows, nodes, seeds, max)[h]).src_id == rows[j].src_id
                && blast_spec(rows, nodes, seeds, max)[h].depth <= blast_spec(rows, nodes, seeds, max)[i].depth + 1,
{
    let w = Walk { seen: seeds, out: Seq::empty(), next: Seq::empty() };
    assert(hop_ids(w.out) =~= Seq::<Seq<char>>::empty());
    assert(w.seen =~= seeds + hop_ids(w.out));
    lemma_walk_levels_closed(rows, nodes, seeds, 0, max, w, seeds);
    let out = blast_spec(rows, nodes, seeds, max);
    assert(out == walk_levels(rows, nodes, seeds, 0, max, w).out);
    assert(rows[j] == rows[j] && out[i] == out[i]);
    assert(caller_in(out, seeds, rows[j].src_id, out[i].depth + 1));
}

// ------------------------------------------------------------------ exec ---

fn contains_id(v: &Vec<String>, id: &str) -> (r: bool)
    ensures
        r == crate::text::str_views(v@).contains(id@),
{
    let x = chars_of(id);
    let mut i: usize = 0;
    while i < v.len()
        invariant
            i <= v@.len(),
            x@ == id@,
            forall|k: int| 0 <= k < i ==> #[trigger] v@[k]@ != id@,
        decreases v.len() - i,
    {
        if seq_eq(&chars_of(v[i].as_str()), &x) {
            assert(crate::text::str_views(v@)[i as int] == id@);
            return true;
        }
        i += 1;
    }
    proof {
        if crate::text::str_views(v@).contains(id@) {
            let k = choose|k: int| 0 <= k < v@.len() && crate::text::str_views(v@)[k] == id@;
            assert(v@[k]@ == id@);
        }
    }
    false
}

fn find_node(nodes: &[NodeRow], id: &str) -> (r: Option<NodeRow>)
    ensures
        match r {
            Some(n) => node_by_id(node_views(nodes@), id@, nodes@.len() as int) == Some(n@),
            None => node_by_id(node_views(nodes@), id@, nodes@.len() as int) is None,
        },
{
    let ghost nv = node_views(nodes@);
    let x = chars_of(id);
    let mut i: usize = 0;
    while i < nodes.len()
        invariant
            i <= nodes@.len(),
            nv == node_views(nodes@),
            x@ == id@,
            node_by_id(nv, id@, i as int) is None,
        decreases nodes.len() - i,
    {
        assert(nv[i as int] == nodes@[i as int]@);
        if seq_eq(&chars_of(nodes[i].id.as_str()), &x) {
            proof {
                lemma_node_by_id_extend(nv, id@, i as int + 1, nodes@.len() as int);
            }
            return Some(nodes[i].duplicate());
        }
        i += 1;
    }
    None
}

proof fn lemma_node_by_id_extend(nodes: Seq<NodeRowV>, id: Seq<char>, a: int, b: int)
    requires
        0 <= a <= b <= nodes.len(),
        node_by_id(nodes, id, a) is Some,
    ensures
        node_by_id(nodes, id, b) == node_by_id(nodes, id, a),
    decreases b - a,
{
    if b > a {
        lemma_node_by_id_extend(nodes, id, a, b - 1);
    }
}

fn copy_str(s: &String) -> (r: String)
    ensures
        r@ == s@,
{
    s.clone()
}

/// Callers of `seeds`, walking `calls` rows backward up to `max_depth`
/// hops. Seeds are excluded; breadth-first order; on a diamond the first
/// visit wins.
pub fn from_ids(rows: &[CallRow], nodes: &[NodeRow], seeds: &[&str], max_depth: usize) -> (r: Vec<
    Hop,
>)
    ensures
        hop_views(r@) == blast_spec(
            row_views(rows@),
            node_views(nodes@),
            seeds@.map_values(|s: &str| s@),
            max_depth as nat,
        ),
{
    let ghost rv = row_views(rows@);
    let ghost nv = node_views(nodes@);
    let ghost sv = seeds@.map_values(|s: &str| s@);
    let mut seen: Vec<String> = Vec::new();
    let mut level: Vec<String> = Vec::new();
    let mut i: usize = 0;
    while i < seeds.len()
        invariant
            i <= seeds@.len(),
            sv == seeds@.map_values(|s: &str| s@),
            crate::text::str_views(seen@) == sv.take(i as int),
            crate::text::str_views(level@) == sv.take(i as int),
        decreases seeds.len() - i,
    {
        let mut a = String::new();
        crate::text::append_str(&mut a, seeds[i]);
        let mut b = String::new();
        crate::text::append_str(&mut b, seeds[i]);
        let ghost s0 = crate::text::str_views(seen@);
        seen.push(a);
        level.push(b);
        assert(sv.take(i + 1) =~= sv.take(i as int).push(seeds@[i as int]@));
        assert(crate::text::str_views(seen@) =~= s0.push(seeds@[i as int]@));
        assert(crate::text::str_views(level@) =~= s0.push(seeds@[i as int]@));
        i += 1;
    }
    assert(sv.take(seeds.len() as int) =~= sv);
    let mut out: Vec<Hop> = Vec::new();
    let ghost w0 = Walk { seen: sv, out: Seq::empty(), next: Seq::empty() };
    assert(hop_views(out@) =~= Seq::<HopV>::empty());
    let mut d: usize = 0;
    while d < max_depth
        invariant
            d <= max_depth,
            rv == row_views(rows@),
            nv == node_views(nodes@),
            sv == seeds@.map_values(|s: &str| s@),
            walk_levels(rv, nv, sv, 0, max_depth as nat, w0).out == walk_levels(
                rv,
                nv,
                crate::text::str_views(level@),
                d as nat,
                max_depth as nat,
                Walk { seen: crate::text::str_views(seen@), out: hop_views(out@), next: Seq::empty() },
            ).out,
        decreases max_depth - d,
    {
        let ghost lv = crate::text::str_views(level@);
        let ghost wstart = Walk {
            seen: crate::text::str_views(seen@),
            out: hop_views(out@),
            next: Seq::empty(),
        };
        let mut next: Vec<String> = Vec::new();
        assert(crate::text::str_views(next@) =~= Seq::<Seq<char>>::empty());
        let mut li: usize = 0;
        while li < level.len()
            invariant
                li <= level@.len(),
                d < max_depth,
                rv == row_views(rows@),
                nv == node_views(nodes@),
                lv == crate::text::str_views(level@),
                visit_level(rv, nv, lv, (d + 1) as nat, wstart, li as int) == (Walk {
                    seen: crate::text::str_views(seen@),
                    out: hop_views(out@),
                    next: crate::text::str_views(next@),
                }),
            decreases level.len() - li,
        {
            let cur = &level[li];
            assert(lv[li as int] == cur@);
            let cv = chars_of(cur.as_str());
            let ghost wl = Walk {
                seen: crate::text::str_views(seen@),
                out: hop_views(out@),
                next: crate::text::str_views(next@),
            };
            let mut k: usize = 0;
            while k < rows.len()
                invariant
                    k <= rows@.len(),
                    d < max_depth,
                    rv == row_views(rows@),
                    nv == node_views(nodes@),
                    cv@ == cur@,
                    visit_rows(rv, nv, cur@, (d + 1) as nat, wl, k as int) == (Walk {
                        seen: crate::text::str_views(seen@),
                        out: hop_views(out@),
                        next: crate::text::str_views(next@),
                    }),
                decreases rows.len() - k,
            {
                let row = &rows[k];
                assert(rv[k as int] == row@);
                if seq_eq(&chars_of(row.dst_id.as_str()), &cv) && !contains_id(
                    &seen,
                    row.src_id.as_str(),
                ) {
                    let ghost s0 = crate::text::str_views(seen@);
                    let ghost o0 = hop_views(out@);
                    let ghost n0 = crate::text::str_views(next@);
                    let node = find_node(nodes, row.src_id.as_str());
                    let hop = Hop {
                        depth: d + 1,
                        src_id: copy_str(&row.src_id),
                        node,
                        file_path: copy_str(&row.file_path),
                        line: row.line,
                        conf: copy_str(&row.conf),
                        reason: copy_str(&row.reason),
                    };
                    assert(hop@ == hop_of(row@, (d + 1) as nat, nv));
                    seen.push(copy_str(&row.src_id));
                    next.push(copy_str(&row.src_id));
                    let ghost hv = hop@;
                    out.push(hop);
                    assert(crate::text::str_views(seen@) =~= s0.push(row@.src_id));
                    assert(crate::text::str_views(next@) =~= n0.push(row@.src_id));
                    assert(hop_views(out@) =~= o0.push(hv));
                }
                k += 1;
            }
            li += 1;
        }
        let ghost w1 = Walk {
            seen: crate::text::str_views(seen@),
            out: hop_views(out@),
            next: crate::text::str_views(next@),
        };
        proof {
            lemma_walk_next_irrelevant(
                rv,
                nv,
                w1.next,
                (d + 1) as nat,
                max_depth as nat,
                w1,
                Seq::empty(),
            );
        }
        level = next;
        d += 1;
    }
    out
}

proof fn lemma_walk_next_irrelevant(
    rows: Seq<CallRowV>,
    nodes: Seq<NodeRowV>,
    level: Seq<Seq<char>>,
    d: nat,
    max: nat,
    w: Walk,
    x: Seq<Seq<char>>,
)
    ensures
        walk_levels(rows, nodes, level, d, max, w).out == walk_levels(
            rows,
            nodes,
            level,
            d,
            max,
            Walk { next: x, ..w },
        ).out,
{
    if d < max {
        assert(Walk { next: Seq::<Seq<char>>::empty(), ..w } == Walk {
            next: Seq::<Seq<char>>::empty(),
            ..Walk { next: x, ..w }
        });
    }
}

} // verus!
