//! Label-propagation clusters over the undirected `calls` graph: each symbol
//! starts with its own id as label and, node by node in id order, takes the
//! most common label among its neighbours (ties to the smallest label), for
//! at most `LABEL_PROP_MAX_ROUNDS` rounds or until nothing changes.
//! Clusters with fewer than `MIN_COMMUNITY_SIZE` members, or fewer internal
//! edges than members (paths, not clusters), are dropped.

use vstd::prelude::*;
use crate::analysis::{edge_views, CallEdge, CallEdgeV};
use crate::group::{lemma_lex_asym, lemma_lex_irreflexive, lemma_lex_total, lemma_lex_trans, lex_lt, lex_lt_exec};
use crate::text::{chars_of, seq_eq, str_views, text_is};

verus! {

pub const MIN_COMMUNITY_SIZE: usize = 3;

pub const LABEL_PROP_MAX_ROUNDS: usize = 10;

/// Ids strictly increase (so each occurs once).
pub open spec fn strictly_sorted(ids: Seq<Seq<char>>) -> bool {
    forall|i: int, j: int| 0 <= i < j < ids.len() ==> lex_lt(#[trigger] ids[i], #[trigger] ids[j])
}

/// Every call joins two of the ids.
pub open spec fn calls_within(ids: Seq<Seq<char>>, calls: Seq<CallEdgeV>) -> bool {
    forall|k: int|
        0 <= k < calls.len() ==> ids.contains(#[trigger] calls[k].src) && ids.contains(calls[k].dst)
}

/// `i` and `j` are different symbols joined by a call either way.
pub open spec fn adjacent(ids: Seq<Seq<char>>, calls: Seq<CallEdgeV>, i: int, j: int) -> bool {
    i != j && exists|k: int|
        0 <= k < calls.len() && ((#[trigger] calls[k].src == ids[i] && calls[k].dst == ids[j]) || (
        calls[k].src == ids[j] && calls[k].dst == ids[i]))
}

pub open spec fn range(n: int) -> Seq<int> {
    Seq::new(n as nat, |j: int| j)
}

/// The neighbours of `i`, in id order.
pub open spec fn nbrs(ids: Seq<Seq<char>>, calls: Seq<CallEdgeV>, i: int) -> Seq<int> {
    range(ids.len() as int).filter(|j: int| adjacent(ids, calls, i, j))
}

proof fn lemma_sorted_unique(ids: Seq<Seq<char>>, i: int, j: int)
    requires
        strictly_sorted(ids),
        0 <= i < ids.len(),
        0 <= j < ids.len(),
        ids[i] == ids[j],
    ensures
        i == j,
{
    if i < j {
        assert(lex_lt(ids[i], ids[j]));
        lemma_lex_irreflexive(ids[i]);
    } else if j < i {
        assert(lex_lt(ids[j], ids[i]));
        lemma_lex_irreflexive(ids[i]);
    }
}

/// The index of `t` in sorted `ids`, by binary search.
fn position_of(ids: &[String], t: &String) -> (r: Option<usize>)
    requires
        strictly_sorted(str_views(ids@)),
    ensures
        match r {
            Some(i) => i < ids@.len() && ids@[i as int]@ == t@,
            None => !str_views(ids@).contains(t@),
        },
{
    let ghost v = str_views(ids@);
    let tv = chars_of(t.as_str());
    let mut lo: usize = 0;
    let mut hi: usize = ids.len();
    while lo < hi
        invariant
            lo <= hi <= ids@.len(),
            v == str_views(ids@),
            strictly_sorted(v),
            tv@ == t@,
            forall|j: int| 0 <= j < lo ==> lex_lt(#[trigger] v[j], t@),
            forall|j: int| hi <= j < v.len() ==> !lex_lt(#[trigger] v[j], t@),
        decreases hi - lo,
    {
        let mid = lo + (hi - lo) / 2;
        let m = chars_of(ids[mid].as_str());
        assert(v[mid as int] == m@);
        if lex_lt_exec(&m, &tv) {
            assert forall|j: int| 0 <= j < mid + 1 implies lex_lt(#[trigger] v[j], t@) by {
                if j < mid {
                    assert(lex_lt(v[j], v[mid as int]));
                    lemma_lex_trans(v[j], v[mid as int], t@);
                }
            }
            lo = mid + 1;
        } else {
            assert forall|j: int| mid <= j < v.len() implies !lex_lt(#[trigger] v[j], t@) by {
                if j > mid {
                    assert(lex_lt(v[mid as int], v[j]));
                    if lex_lt(v[j], t@) {
                        lemma_lex_trans(v[mid as int], v[j], t@);
                    }
                }
            }
            hi = mid;
        }
    }
    proof {
        assert forall|j: int| 0 <= j < lo implies v[j] != t@ by {
            lemma_lex_irreflexive(t@);
        }
    }
    if lo < ids.len() {
        let m = chars_of(ids[lo].as_str());
        assert(v[lo as int] == m@);
        if seq_eq(&m, &tv) {
            return Some(lo);
        }
        proof {
            assert forall|j: int| lo <= j < v.len() implies v[j] != t@ by {
                if j > lo {
                    assert(lex_lt(v[lo as int], v[j]));
                    assert(!lex_lt(v[lo as int], t@));
                }
            }
        }
    }
    proof {
        assert forall|j: int| 0 <= j < v.len() implies v[j] != t@ by {
            if j < lo {
            }
        }
    }
    None
}

/// The id indices of every call's endpoints.
fn endpoint_indices(ids: &[String], calls: &[CallEdge]) -> (r: Vec<(usize, usize)>)
    requires
        strictly_sorted(str_views(ids@)),
        calls_within(str_views(ids@), edge_views(calls@)),
    ensures
        r@.len() == calls@.len(),
        forall|k: int|
            0 <= k < r@.len() ==> (#[trigger] r@[k]).0 < ids@.len() && r@[k].1 < ids@.len() && ids@[r@[k].0 as int]@
                == calls@[k].src@ && ids@[r@[k].1 as int]@ == calls@[k].dst@,
{
    let ghost v = str_views(ids@);
    let ghost cv = edge_views(calls@);
    let mut out: Vec<(usize, usize)> = Vec::new();
    let mut k: usize = 0;
    while k < calls.len()
        invariant
            k <= calls@.len(),
            out@.len() == k,
            v == str_views(ids@),
            cv == edge_views(calls@),
            strictly_sorted(v),
            calls_within(v, cv),
            forall|q: int|
                0 <= q < k ==> (#[trigger] out@[q]).0 < ids@.len() && out@[q].1 < ids@.len()
                    && ids@[out@[q].0 as int]@ == calls@[q].src@ && ids@[out@[q].1 as int]@
                    == calls@[q].dst@,
        decreases calls.len() - k,
    {
        assert(cv[k as int] == calls@[k as int]@);
        assert(v.contains(cv[k as int].src));
        assert(v.contains(cv[k as int].dst));
        let s = position_of(ids, &calls[k].src);
        let d = position_of(ids, &calls[k].dst);
        match (s, d) {
            (Some(a), Some(b)) => {
                out.push((a, b));
            },
            _ => {
                proof {
                    assert(false);
                }
                out.push((0, 0));
            },
        }
        k += 1;
    }
    out
}

/// Each symbol's neighbours, in id order.
fn neighbour_lists(ids: &[String], calls: &[CallEdge]) -> (r: Vec<Vec<usize>>)
    requires
        strictly_sorted(str_views(ids@)),
        calls_within(str_views(ids@), edge_views(calls@)),
    ensures
        r@.len() == ids@.len(),
        forall|i: int|
            0 <= i < r@.len() ==> (#[trigger] r@[i])@.map_values(|j: usize| j as int) == nbrs(
                str_views(ids@),
                edge_views(calls@),
                i,
            ),
{
    let ghost v = str_views(ids@);
    let ghost cv = edge_views(calls@);
    let n = ids.len();
    let ix = endpoint_indices(ids, calls);
    // calls touching each symbol
    let mut inc: Vec<Vec<usize>> = Vec::new();
    let mut i: usize = 0;
    while i < n
        invariant
            i <= n == ids@.len(),
            inc@.len() == i,
            forall|a: int| 0 <= a < i ==> (#[trigger] inc@[a])@.len() == 0,
        decreases n - i,
    {
        inc.push(Vec::new());
        i += 1;
    }
    let mut k: usize = 0;
    while k < ix.len()
        invariant
            k <= ix@.len() == calls@.len(),
            inc@.len() == n == ids@.len(),
            forall|q: int| 0 <= q < ix@.len() ==> (#[trigger] ix@[q]).0 < n && ix@[q].1 < n,
            forall|a: int, q: usize|
                0 <= a < n && q < k ==> ((ix@[q as int].0 == a || ix@[q as int].1 == a) <==> #[trigger] inc@[a]@.contains(
                    q,
                )),
            forall|a: int, t: int|
                0 <= a < n && 0 <= t < inc@[a]@.len() ==> (#[trigger] inc@[a]@[t]) < k,
        decreases ix.len() - k,
    {
        let (a, b) = ix[k];
        let ghost before = inc@;
        let mut va = inc.remove(a);
        va.push(k);
        inc.insert(a, va);
        if b != a {
            let mut vb = inc.remove(b);
            vb.push(k);
            inc.insert(b, vb);
        }
        assert forall|c: int, q: usize|
            0 <= c < n && q < k + 1 implies ((ix@[q as int].0 == c || ix@[q as int].1 == c) <==> #[trigger] inc@[c]@.contains(
                q,
            )) by {
            if c == a as int || c == b as int {
                if q == k {
                    assert(inc@[c]@.last() == k);
                } else {
                    assert(inc@[c]@.drop_last() =~= before[c]@);
                    if before[c]@.contains(q) {
                        let t = choose|t: int| 0 <= t < before[c]@.len() && before[c]@[t] == q;
                        assert(inc@[c]@[t] == q);
                    }
                    if inc@[c]@.contains(q) {
                        let t = choose|t: int| 0 <= t < inc@[c]@.len() && inc@[c]@[t] == q;
                        if t < inc@[c]@.len() - 1 {
                            assert(before[c]@[t] == q);
                        }
                    }
                }
            } else {
                assert(inc@[c] == before[c]);
            }
        }
        assert forall|c: int, t: int| 0 <= c < n && 0 <= t < inc@[c]@.len() implies (#[trigger] inc@[c]@[t])
            < k + 1 by {
            if c == a as int || c == b as int {
                if t < inc@[c]@.len() - 1 {
                    assert(inc@[c]@[t] == before[c]@[t]);
                }
            } else {
                assert(inc@[c] == before[c]);
            }
        }
        k += 1;
    }
    // neighbour lists from marks
    let mut mark: Vec<bool> = Vec::new();
    let mut j: usize = 0;
    while j < n
        invariant
            j <= n,
            mark@.len() == j,
            forall|q: int| 0 <= q < j ==> !#[trigger] mark@[q],
        decreases n - j,
    {
        mark.push(false);
        j += 1;
    }
    let mut adj: Vec<Vec<usize>> = Vec::new();
    let ilen = ix.len();
    let mut i: usize = 0;
    while i < n
        invariant
            i <= n == ids@.len(),
            ilen == ix@.len(),
            v == str_views(ids@),
            cv == edge_views(calls@),
            strictly_sorted(v),
            inc@.len() == n,
            mark@.len() == n,
            ix@.len() == calls@.len(),
            forall|q: int|
                0 <= q < ix@.len() ==> (#[trigger] ix@[q]).0 < ids@.len() && ix@[q].1 < ids@.len()
                    && ids@[ix@[q].0 as int]@ == calls@[q].src@ && ids@[ix@[q].1 as int]@
                    == calls@[q].dst@,
            forall|a: int, q: usize|
                0 <= a < n && q < ix@.len() ==> ((ix@[q as int].0 == a || ix@[q as int].1 == a) <==> #[trigger] inc@[a]@.contains(
                    q,
                )),
            forall|a: int, t: int|
                0 <= a < n && 0 <= t < inc@[a]@.len() ==> (#[trigger] inc@[a]@[t]) < ix@.len(),
            forall|q: int| 0 <= q < n ==> !#[trigger] mark@[q],
            adj@.len() == i,
            forall|a: int| 0 <= a < i ==> (#[trigger] adj@[a])@.map_values(|j: usize| j as int) == nbrs(v, cv, a),
        decreases n - i,
    {
        let list = &inc[i];
        let mut t: usize = 0;
        while t < list.len()
            invariant
                t <= list@.len(),
                i < n == ids@.len(),
                inc@.len() == n,
                mark@.len() == n,
                list@ == inc@[i as int]@,
                ix@.len() == calls@.len(),
                forall|q: int|
                    0 <= q < ix@.len() ==> (#[trigger] ix@[q]).0 < n && ix@[q].1 < n,
                forall|s: int| 0 <= s < list@.len() ==> (#[trigger] list@[s]) < ix@.len(),
                forall|q: int|
                    0 <= q < n ==> (#[trigger] mark@[q] <==> exists|s: int|
                        0 <= s < t && ((ix@[list@[s] as int].0 == i && ix@[list@[s] as int].1 == q
                            && q != i) || (ix@[list@[s] as int].1 == i && ix@[list@[s] as int].0 == q
                            && q != i))),
            decreases list.len() - t,
        {
            let (a, b) = ix[list[t]];
            let ghost m0 = mark@;
            if a == i && b != i {
                mark.set(b, true);
            }
            if b == i && a != i {
                mark.set(a, true);
            }
            assert forall|q: int| 0 <= q < n implies (#[trigger] mark@[q] <==> exists|s: int|
                0 <= s < t + 1 && ((ix@[list@[s] as int].0 == i && ix@[list@[s] as int].1 == q
                    && q != i) || (ix@[list@[s] as int].1 == i && ix@[list@[s] as int].0 == q
                    && q != i))) by {
                if m0[q] {
                    let s = choose|s: int|
                        0 <= s < t && ((ix@[list@[s] as int].0 == i && ix@[list@[s] as int].1 == q
                            && q != i) || (ix@[list@[s] as int].1 == i && ix@[list@[s] as int].0 == q
                            && q != i));
                    assert(0 <= s < t + 1);
                }
            }
            t += 1;
        }
        // mark[q] <==> adjacent(i, q)
        assert forall|q: int| 0 <= q < n implies (#[trigger] mark@[q] <==> adjacent(v, cv, i as int, q)) by {
            if mark@[q] {
                let s = choose|s: int|
                    0 <= s < list@.len() && ((ix@[list@[s] as int].0 == i && ix@[list@[s] as int].1 == q
                        && q != i) || (ix@[list@[s] as int].1 == i && ix@[list@[s] as int].0 == q
                        && q != i));
                let kk = list@[s] as int;
                assert(cv[kk] == calls@[kk]@);
                let (a, b) = ix@[kk];
                if a == i && b == q {
                    assert(cv[kk].src == v[i as int] && cv[kk].dst == v[q]);
                } else {
                    assert(cv[kk].src == v[q] && cv[kk].dst == v[i as int]);
                }
            }
            if adjacent(v, cv, i as int, q) {
                let kk = choose|kk: int|
                    0 <= kk < cv.len() && ((#[trigger] cv[kk].src == v[i as int] && cv[kk].dst == v[q])
                        || (cv[kk].src == v[q] && cv[kk].dst == v[i as int]));
                assert(cv[kk] == calls@[kk]@);
                let (a, b) = ix@[kk];
                assert(v[a as int] == cv[kk].src);
                assert(v[b as int] == cv[kk].dst);
                if cv[kk].src == v[i as int] && cv[kk].dst == v[q] {
                    lemma_sorted_unique(v, a as int, i as int);
                    lemma_sorted_unique(v, b as int, q);
                } else {
                    lemma_sorted_unique(v, a as int, q);
                    lemma_sorted_unique(v, b as int, i as int);
                }
                assert(kk < ilen);
                assert(inc@[i as int]@.contains(kk as usize));
                let s = choose|s: int| 0 <= s < list@.len() && list@[s] == kk as usize;
                assert(0 <= s < list@.len());
                assert(ix@[list@[s] as int] == (a, b));
            }
        }
        // collect the marked symbols, clearing each mark as it is read
        let mut row: Vec<usize> = Vec::new();
        let ghost pred = |j: int| adjacent(v, cv, i as int, j);
        let mut q: usize = 0;
        while q < n
            invariant
                q <= n == ids@.len(),
                mark@.len() == n,
                pred == (|j: int| adjacent(v, cv, i as int, j)),
                forall|z: int| 0 <= z < q ==> !#[trigger] mark@[z],
                forall|z: int| q <= z < n ==> (#[trigger] mark@[z] <==> adjacent(v, cv, i as int, z)),
                row@.map_values(|j: usize| j as int) == range(n as int).take(q as int).filter(pred),
            decreases n - q,
        {
            proof {
                reveal(Seq::filter);
            }
            assert(range(n as int).take(q + 1).drop_last() =~= range(n as int).take(q as int));
            assert(range(n as int).take(q + 1).last() == q as int);
            if mark[q] {
                let ghost r0 = row@.map_values(|j: usize| j as int);
                row.push(q);
                assert(row@.map_values(|j: usize| j as int) =~= r0.push(q as int));
                mark.set(q, false);
            }
            q += 1;
        }
        assert(range(n as int).take(n as int) =~= range(n as int));
        adj.push(row);
        i += 1;
    }
    adj
}


// ------------------------------------------------------ propagation spec ---

/// How many of the symbols `nb` carry label `lab`.
pub open spec fn label_count(labels: Seq<Seq<char>>, nb: Seq<int>, lab: Seq<char>) -> nat
    decreases nb.len(),
{
    if nb.len() == 0 {
        0
    } else {
        label_count(labels, nb.drop_last(), lab) + if labels[nb.last()] == lab {
            1nat
        } else {
            0nat
        }
    }
}

/// The most common label among the first `m` of `nb`, ties going to the
/// smallest label, with its count.
pub open spec fn best_among(labels: Seq<Seq<char>>, nb: Seq<int>, m: int) -> Option<(Seq<char>, nat)>
    decreases m,
{
    if m <= 0 {
        None
    } else {
        let b = best_among(labels, nb, m - 1);
        let l = labels[nb[m - 1]];
        let c = label_count(labels, nb, l);
        match b {
            None => Some((l, c)),
            Some((bl, bc)) => if c > bc || (c == bc && lex_lt(l, bl)) {
                Some((l, c))
            } else {
                b
            },
        }
    }
}

pub ghost struct Sweep {
    pub labels: Seq<Seq<char>>,
    pub changed: bool,
}

/// One round over symbols `0..m` in id order: each symbol with neighbours
/// takes their most common label.
pub open spec fn sweep(ids: Seq<Seq<char>>, calls: Seq<CallEdgeV>, labels: Seq<Seq<char>>, m: int) -> Sweep
    decreases m,
{
    if m <= 0 {
        Sweep { labels: labels, changed: false }
    } else {
        let s = sweep(ids, calls, labels, m - 1);
        let nb = nbrs(ids, calls, m - 1);
        if nb.len() == 0 {
            s
        } else {
            let b = best_among(s.labels, nb, nb.len() as int)->Some_0.0;
            if s.labels[m - 1] != b {
                Sweep { labels: s.labels.update(m - 1, b), changed: true }
            } else {
                s
            }
        }
    }
}

/// Rounds until nothing changes or `rounds` run out.
pub open spec fn propagate(ids: Seq<Seq<char>>, calls: Seq<CallEdgeV>, labels: Seq<Seq<char>>, rounds: nat) -> Seq<
    Seq<char>,
>
    decreases rounds,
{
    if rounds == 0 {
        labels
    } else {
        let s = sweep(ids, calls, labels, ids.len() as int);
        if s.changed {
            propagate(ids, calls, s.labels, (rounds - 1) as nat)
        } else {
            s.labels
        }
    }
}

/// Final labels: each symbol starts with its own id.
pub open spec fn final_labels(ids: Seq<Seq<char>>, calls: Seq<CallEdgeV>) -> Seq<Seq<char>> {
    propagate(ids, calls, ids, LABEL_PROP_MAX_ROUNDS as nat)
}

proof fn lemma_index_order(ids: Seq<Seq<char>>, p: int, q: int)
    requires
        strictly_sorted(ids),
        0 <= p < ids.len(),
        0 <= q < ids.len(),
    ensures
        lex_lt(ids[p], ids[q]) <==> p < q,
        ids[p] == ids[q] <==> p == q,
{
    lemma_lex_irreflexive(ids[p]);
    if p < q {
        assert(lex_lt(ids[p], ids[q]));
    } else if q < p {
        assert(lex_lt(ids[q], ids[p]));
        lemma_lex_asym(ids[q], ids[p]);
    }
}

/// Labels held as id indices stand for the id strings.
pub open spec fn label_strings(ids: Seq<Seq<char>>, lab: Seq<usize>) -> Seq<Seq<char>> {
    lab.map_values(|p: usize| ids[p as int])
}

/// The best neighbour label of `i`, as an id index.
fn best_label(lab: &Vec<usize>, nb: &Vec<usize>, Ghost(ids): Ghost<Seq<Seq<char>>>) -> (r: usize)
    requires
        nb@.len() > 0,
        strictly_sorted(ids),
        lab@.len() == ids.len(),
        forall|t: int| 0 <= t < lab@.len() ==> (#[trigger] lab@[t]) < ids.len(),
        forall|t: int| 0 <= t < nb@.len() ==> (#[trigger] nb@[t]) < lab@.len(),
    ensures
        r < ids.len(),
        best_among(
            label_strings(ids, lab@),
            nb@.map_values(|j: usize| j as int),
            nb@.len() as int,
        ) matches Some(b) && b.0 == ids[r as int],
{
    let ghost ls = label_strings(ids, lab@);
    let ghost nbi = nb@.map_values(|j: usize| j as int);
    let mut best: usize = lab[nb[0]];
    let mut best_c: usize = 0;
    let mut t: usize = 0;
    while t < nb.len()
        invariant
            0 <= t <= nb@.len(),
            nb@.len() > 0,
            strictly_sorted(ids),
            lab@.len() == ids.len(),
            forall|q: int| 0 <= q < lab@.len() ==> (#[trigger] lab@[q]) < ids.len(),
            forall|q: int| 0 <= q < nb@.len() ==> (#[trigger] nb@[q]) < lab@.len(),
            ls == label_strings(ids, lab@),
            nbi == nb@.map_values(|j: usize| j as int),
            best < ids.len(),
            t == 0 ==> best_among(ls, nbi, 0) is None,
            t > 0 ==> (best_among(ls, nbi, t as int) matches Some(b) && b.0 == ids[best as int]
                && b.1 == best_c),
        decreases nb.len() - t,
    {
        let l = lab[nb[t]];
        assert(ls[nbi[t as int]] == ids[l as int]);
        // count neighbours labelled l
        let mut c: usize = 0;
        let mut u: usize = 0;
        while u < nb.len()
            invariant
                u <= nb@.len(),
                c <= u,
                lab@.len() == ids.len(),
                strictly_sorted(ids),
                forall|q: int| 0 <= q < lab@.len() ==> (#[trigger] lab@[q]) < ids.len(),
                forall|q: int| 0 <= q < nb@.len() ==> (#[trigger] nb@[q]) < lab@.len(),
                ls == label_strings(ids, lab@),
                nbi == nb@.map_values(|j: usize| j as int),
                l < ids.len(),
                c == label_count(ls, nbi.take(u as int), ids[l as int]),
            decreases nb.len() - u,
        {
            assert(nbi.take(u + 1).drop_last() =~= nbi.take(u as int));
            assert(nbi.take(u + 1).last() == nb@[u as int] as int);
            proof {
                lemma_index_order(ids, lab@[nb@[u as int] as int] as int, l as int);
            }
            if lab[nb[u]] == l {
                c += 1;
            }
            u += 1;
        }
        assert(nbi.take(nb.len() as int) =~= nbi);
        proof {
            lemma_index_order(ids, l as int, best as int);
        }
        if t == 0 || c > best_c || (c == best_c && l < best) {
            best = l;
            best_c = c;
        }
        t += 1;
    }
    best
}


/// Run the label propagation over the neighbour lists.
fn propagate_labels(
    adj: &Vec<Vec<usize>>,
    n: usize,
    Ghost(ids): Ghost<Seq<Seq<char>>>,
    Ghost(calls): Ghost<Seq<CallEdgeV>>,
) -> (r: Vec<usize>)
    requires
        n == ids.len(),
        strictly_sorted(ids),
        adj@.len() == n,
        forall|i: int|
            0 <= i < n ==> (#[trigger] adj@[i])@.map_values(|j: usize| j as int) == nbrs(ids, calls, i),
    ensures
        r@.len() == n,
        forall|t: int| 0 <= t < n ==> (#[trigger] r@[t]) < n,
        label_strings(ids, r@) == final_labels(ids, calls),
{
    let mut lab: Vec<usize> = Vec::new();
    let mut i: usize = 0;
    while i < n
        invariant
            i <= n,
            lab@.len() == i,
            forall|t: int| 0 <= t < i ==> (#[trigger] lab@[t]) == t,
        decreases n - i,
    {
        lab.push(i);
        i += 1;
    }
    assert(label_strings(ids, lab@) =~= ids);
    let mut round: usize = 0;
    let mut stopped = false;
    while !stopped && round < LABEL_PROP_MAX_ROUNDS
        invariant
            n == ids.len(),
            strictly_sorted(ids),
            adj@.len() == n,
            forall|i: int|
                0 <= i < n ==> (#[trigger] adj@[i])@.map_values(|j: usize| j as int) == nbrs(ids, calls, i),
            lab@.len() == n,
            forall|t: int| 0 <= t < n ==> (#[trigger] lab@[t]) < n,
            round <= LABEL_PROP_MAX_ROUNDS,
            final_labels(ids, calls) == (if stopped {
                label_strings(ids, lab@)
            } else {
                propagate(ids, calls, label_strings(ids, lab@), (LABEL_PROP_MAX_ROUNDS - round) as nat)
            }),
        decreases LABEL_PROP_MAX_ROUNDS - round + (if stopped {
            0int
        } else {
            1int
        }),
    {
        let ghost start = label_strings(ids, lab@);
        let mut changed = false;
        let mut i: usize = 0;
        assert(sweep(ids, calls, start, 0) == (Sweep { labels: label_strings(ids, lab@), changed: changed }));
        while i < n
            invariant
                i <= n == ids.len(),
                strictly_sorted(ids),
                adj@.len() == n,
                forall|a: int|
                    0 <= a < n ==> (#[trigger] adj@[a])@.map_values(|j: usize| j as int) == nbrs(ids, calls, a),
                lab@.len() == n,
                forall|t: int| 0 <= t < n ==> (#[trigger] lab@[t]) < n,
                sweep(ids, calls, start, i as int) == (Sweep {
                    labels: label_strings(ids, lab@),
                    changed: changed,
                }),
            decreases n - i,
        {
            let nb = &adj[i];
            assert(nb@.map_values(|j: usize| j as int) == nbrs(ids, calls, i as int));
            if nb.len() > 0 {
                proof {
                    assert forall|t: int| 0 <= t < nb@.len() implies (#[trigger] nb@[t]) < lab@.len() by {
                        let nn = nbrs(ids, calls, i as int);
                        assert(nb@.map_values(|j: usize| j as int)[t] == nn[t]);
                        range(n as int).lemma_filter_pred(|j: int| adjacent(ids, calls, i as int, j), t);
                        assert(range(n as int).filter(|j: int| adjacent(ids, calls, i as int, j)).len()
                            <= range(n as int).len()) by {
                            range(n as int).lemma_filter_len(|j: int| adjacent(ids, calls, i as int, j));
                        }
                        lemma_nbrs_in_range(ids, calls, i as int, t);
                    }
                }
                let b = best_label(&lab, nb, Ghost(ids));
                proof {
                    lemma_index_order(ids, lab@[i as int] as int, b as int);
                }
                if lab[i] != b {
                    let ghost l0 = label_strings(ids, lab@);
                    lab.set(i, b);
                    changed = true;
                    assert(label_strings(ids, lab@) =~= l0.update(i as int, ids[b as int]));
                }
            }
            i += 1;
        }
        if !changed {
            stopped = true;
        }
        round += 1;
    }
    lab
}

proof fn lemma_nbrs_in_range(ids: Seq<Seq<char>>, calls: Seq<CallEdgeV>, i: int, t: int)
    requires
        0 <= t < nbrs(ids, calls, i).len(),
    ensures
        0 <= nbrs(ids, calls, i)[t] < ids.len(),
{
    let p = |j: int| adjacent(ids, calls, i, j);
    let r = range(ids.len() as int);
    r.lemma_filter_pred(p, t);
    lemma_filter_members(r, p, t);
}

/// Every element of a filtered sequence occurs in the sequence it was taken from.
proof fn lemma_filter_members(s: Seq<int>, p: spec_fn(int) -> bool, t: int)
    requires
        0 <= t < s.filter(p).len(),
    ensures
        s.contains(s.filter(p)[t]),
    decreases s.len(),
{
    reveal(Seq::filter);
    if s.len() > 0 {
        let rest = s.drop_last().filter(p);
        if t < rest.len() {
            lemma_filter_members(s.drop_last(), p, t);
            let k = choose|k: int| 0 <= k < s.drop_last().len() && s.drop_last()[k] == rest[t];
            assert(s[k] == rest[t]);
        } else {
            assert(s.filter(p)[t] == s.last());
            assert(s[s.len() - 1] == s.last());
        }
    }
}

/// Per symbol: calls made plus calls received.
fn call_counts(ix: &Vec<(usize, usize)>, n: usize, Ghost(ids): Ghost<Seq<Seq<char>>>, Ghost(calls): Ghost<Seq<CallEdgeV>>) -> (r: Vec<u128>)
    requires
        n == ids.len(),
        strictly_sorted(ids),
        ix@.len() == calls.len(),
        forall|q: int|
            0 <= q < ix@.len() ==> (#[trigger] ix@[q]).0 < n && ix@[q].1 < n && ids[ix@[q].0 as int]
                == calls[q].src && ids[ix@[q].1 as int] == calls[q].dst,
    ensures
        r@.len() == n,
        forall|a: int| 0 <= a < n ==> (#[trigger] r@[a]) as int == call_count(calls, ids[a], calls.len() as int),
{
    let mut cnt: Vec<u128> = Vec::new();
    let mut a: usize = 0;
    while a < n
        invariant
            a <= n,
            cnt@.len() == a,
            forall|t: int| 0 <= t < a ==> (#[trigger] cnt@[t]) == 0,
        decreases n - a,
    {
        cnt.push(0);
        a += 1;
    }
    let mut k: usize = 0;
    while k < ix.len()
        invariant
            k <= ix@.len() == calls.len(),
            n == ids.len(),
            strictly_sorted(ids),
            cnt@.len() == n,
            forall|q: int|
                0 <= q < ix@.len() ==> (#[trigger] ix@[q]).0 < n && ix@[q].1 < n && ids[ix@[q].0 as int]
                    == calls[q].src && ids[ix@[q].1 as int] == calls[q].dst,
            forall|t: int| 0 <= t < n ==> (#[trigger] cnt@[t]) as int == call_count(calls, ids[t], k as int),
            forall|t: int| 0 <= t < n ==> (#[trigger] cnt@[t]) <= 2 * k,
        decreases ix.len() - k,
    {
        let (x, y) = ix[k];
        let ghost c0 = cnt@;
        let cx = cnt[x];
        cnt.set(x, cx + 1);
        let cy = cnt[y];
        cnt.set(y, cy + 1);
        assert forall|t: int| 0 <= t < n implies (#[trigger] cnt@[t]) as int == call_count(calls, ids[t], k + 1) by {
            lemma_index_order(ids, t, x as int);
            lemma_index_order(ids, t, y as int);
        }
        k += 1;
    }
    cnt
}

/// Per symbol: whether it calls itself.
fn self_calls(ix: &Vec<(usize, usize)>, n: usize, Ghost(ids): Ghost<Seq<Seq<char>>>, Ghost(calls): Ghost<Seq<CallEdgeV>>) -> (r: Vec<bool>)
    requires
        n == ids.len(),
        strictly_sorted(ids),
        ix@.len() == calls.len(),
        forall|q: int|
            0 <= q < ix@.len() ==> (#[trigger] ix@[q]).0 < n && ix@[q].1 < n && ids[ix@[q].0 as int]
                == calls[q].src && ids[ix@[q].1 as int] == calls[q].dst,
    ensures
        r@.len() == n,
        forall|a: int| 0 <= a < n ==> (#[trigger] r@[a] <==> self_call(ids, calls, a)),
{
    let mut out: Vec<bool> = Vec::new();
    let mut a: usize = 0;
    while a < n
        invariant
            a <= n,
            out@.len() == a,
            forall|t: int| 0 <= t < a ==> !(#[trigger] out@[t]),
        decreases n - a,
    {
        out.push(false);
        a += 1;
    }
    let mut k: usize = 0;
    while k < ix.len()
        invariant
            k <= ix@.len() == calls.len(),
            n == ids.len(),
            strictly_sorted(ids),
            out@.len() == n,
            forall|q: int|
                0 <= q < ix@.len() ==> (#[trigger] ix@[q]).0 < n && ix@[q].1 < n && ids[ix@[q].0 as int]
                    == calls[q].src && ids[ix@[q].1 as int] == calls[q].dst,
            forall|t: int|
                0 <= t < n ==> (#[trigger] out@[t] <==> exists|q: int|
                    0 <= q < k && #[trigger] calls[q].src == ids[t] && calls[q].dst == ids[t]),
        decreases ix.len() - k,
    {
        let (x, y) = ix[k];
        let ghost o0 = out@;
        if x == y {
            out.set(x, true);
        }
        assert forall|t: int| 0 <= t < n implies (#[trigger] out@[t] <==> exists|q: int|
            0 <= q < k + 1 && #[trigger] calls[q].src == ids[t] && calls[q].dst == ids[t]) by {
            lemma_index_order(ids, t, x as int);
            lemma_index_order(ids, t, y as int);
            lemma_index_order(ids, x as int, y as int);
            if o0[t] {
                let q = choose|q: int| 0 <= q < k && #[trigger] calls[q].src == ids[t] && calls[q].dst == ids[t];
                assert(0 <= q < k + 1);
            }
            if exists|q: int| 0 <= q < k + 1 && #[trigger] calls[q].src == ids[t] && calls[q].dst == ids[t] {
                let q = choose|q: int| 0 <= q < k + 1 && #[trigger] calls[q].src == ids[t] && calls[q].dst == ids[t];
                if q < k {
                } else {
                    assert(ids[x as int] == ids[t]);
                }
            }
        }
        k += 1;
    }
    out
}

/// Per label (as an id index): whether some call inside that label is not
/// strong.
fn weak_labels(
    ix: &Vec<(usize, usize)>,
    lab: &Vec<usize>,
    calls_x: &[CallEdge],
    n: usize,
    Ghost(ids): Ghost<Seq<Seq<char>>>,
) -> (r: Vec<bool>)
    requires
        n == ids.len(),
        strictly_sorted(ids),
        ix@.len() == calls_x@.len(),
        lab@.len() == n,
        forall|t: int| 0 <= t < n ==> (#[trigger] lab@[t]) < n,
        forall|q: int|
            0 <= q < ix@.len() ==> (#[trigger] ix@[q]).0 < n && ix@[q].1 < n && ids[ix@[q].0 as int]
                == calls_x@[q].src@ && ids[ix@[q].1 as int] == calls_x@[q].dst@,
    ensures
        r@.len() == n,
        forall|p: int|
            0 <= p < n ==> (#[trigger] r@[p] <==> weak_inside(
                ids,
                edge_views(calls_x@),
                label_strings(ids, lab@),
                ids[p],
            )),
{
    let ghost cv = edge_views(calls_x@);
    let ghost ls = label_strings(ids, lab@);
    let mut out: Vec<bool> = Vec::new();
    let mut a: usize = 0;
    while a < n
        invariant
            a <= n,
            out@.len() == a,
            forall|t: int| 0 <= t < a ==> !(#[trigger] out@[t]),
        decreases n - a,
    {
        out.push(false);
        a += 1;
    }
    let mut k: usize = 0;
    while k < ix.len()
        invariant
            k <= ix@.len() == calls_x@.len(),
            n == ids.len(),
            strictly_sorted(ids),
            out@.len() == n,
            lab@.len() == n,
            cv == edge_views(calls_x@),
            ls == label_strings(ids, lab@),
            forall|t: int| 0 <= t < n ==> (#[trigger] lab@[t]) < n,
            forall|q: int|
                0 <= q < ix@.len() ==> (#[trigger] ix@[q]).0 < n && ix@[q].1 < n && ids[ix@[q].0 as int]
                    == calls_x@[q].src@ && ids[ix@[q].1 as int] == calls_x@[q].dst@,
            forall|p: int|
                0 <= p < n ==> (#[trigger] out@[p] <==> exists|q: int|
                    0 <= q < k && in_label(ids, ls, #[trigger] cv[q].src, ids[p]) && in_label(
                        ids,
                        ls,
                        cv[q].dst,
                        ids[p],
                    ) && cv[q].conf != "strong"@),
        decreases ix.len() - k,
    {
        let (x, y) = ix[k];
        let ghost o0 = out@;
        assert(cv[k as int] == calls_x@[k as int]@);
        let inside = lab[x] == lab[y] && !text_is(calls_x[k].conf.as_str(), "strong");
        if inside {
            out.set(lab[x], true);
        }
        assert forall|p: int| 0 <= p < n implies (#[trigger] out@[p] <==> exists|q: int|
            0 <= q < k + 1 && in_label(ids, ls, #[trigger] cv[q].src, ids[p]) && in_label(
                ids,
                ls,
                cv[q].dst,
                ids[p],
            ) && cv[q].conf != "strong"@) by {
            let srcin = in_label(ids, ls, cv[k as int].src, ids[p]);
            let dstin = in_label(ids, ls, cv[k as int].dst, ids[p]);
            assert(ls[x as int] == ids[lab@[x as int] as int]);
            assert(ls[y as int] == ids[lab@[y as int] as int]);
            if srcin {
                let j = choose|j: int| 0 <= j < ids.len() && #[trigger] ids[j] == cv[k as int].src && ls[j] == ids[p];
                lemma_index_order(ids, j, x as int);
                lemma_index_order(ids, lab@[x as int] as int, p);
            }
            if dstin {
                let j = choose|j: int| 0 <= j < ids.len() && #[trigger] ids[j] == cv[k as int].dst && ls[j] == ids[p];
                lemma_index_order(ids, j, y as int);
                lemma_index_order(ids, lab@[y as int] as int, p);
            }
            lemma_index_order(ids, lab@[x as int] as int, p);
            lemma_index_order(ids, lab@[x as int] as int, lab@[y as int] as int);
            if inside && lab@[x as int] == p {
                assert(ids[x as int] == cv[k as int].src && ls[x as int] == ids[p]);
                assert(ids[y as int] == cv[k as int].dst && ls[y as int] == ids[p]);
                assert(in_label(ids, ls, cv[k as int].src, ids[p]));
                assert(in_label(ids, ls, cv[k as int].dst, ids[p]));
            }
            if o0[p] {
                let q = choose|q: int|
                    0 <= q < k && in_label(ids, ls, #[trigger] cv[q].src, ids[p]) && in_label(
                        ids,
                        ls,
                        cv[q].dst,
                        ids[p],
                    ) && cv[q].conf != "strong"@;
                assert(0 <= q < k + 1);
            }
        }
        k += 1;
    }
    out
}


// ------------------------------------------------------------ communities ---

/// The symbols sharing `i`'s label, in id order.
pub open spec fn members_of(labels: Seq<Seq<char>>, i: int) -> Seq<int> {
    range(labels.len() as int).filter(same_label(labels, i))
}

pub open spec fn same_label(labels: Seq<Seq<char>>, i: int) -> spec_fn(int) -> bool {
    |j: int| labels[j] == labels[i]
}

pub open spec fn label_is(lab: Seq<usize>, p: int) -> spec_fn(int) -> bool {
    |x: int| lab[x] == p
}

pub open spec fn first_of_label(labels: Seq<Seq<char>>, i: int) -> bool {
    forall|j: int| 0 <= j < i ==> #[trigger] labels[j] != labels[i]
}

/// Calls made plus calls received (a self-call counts twice).
pub open spec fn call_count(calls: Seq<CallEdgeV>, id: Seq<char>, k: int) -> nat
    decreases k,
{
    if k <= 0 {
        0
    } else {
        call_count(calls, id, k - 1) + (if calls[k - 1].src == id {
            1nat
        } else {
            0nat
        }) + (if calls[k - 1].dst == id {
            1nat
        } else {
            0nat
        })
    }
}

/// Among the first `m` members, the first one with the most calls.
pub open spec fn hub_of(ids: Seq<Seq<char>>, calls: Seq<CallEdgeV>, ms: Seq<int>, m: int) -> int
    decreases m,
{
    if m <= 1 {
        ms[0]
    } else {
        let h = hub_of(ids, calls, ms, m - 1);
        if call_count(calls, ids[ms[m - 1]], calls.len() as int) > call_count(
            calls,
            ids[h],
            calls.len() as int,
        ) {
            ms[m - 1]
        } else {
            h
        }
    }
}

pub open spec fn self_call(ids: Seq<Seq<char>>, calls: Seq<CallEdgeV>, a: int) -> bool {
    exists|k: int| 0 <= k < calls.len() && #[trigger] calls[k].src == ids[a] && calls[k].dst == ids[a]
}

/// The member pairs `{a, b}` joined by a call with `a` the smaller, plus `a`'s
/// self-call: the internal edges counted from `a`.
pub open spec fn pairs_from(ids: Seq<Seq<char>>, calls: Seq<CallEdgeV>, labels: Seq<Seq<char>>, a: int) -> nat {
    (if self_call(ids, calls, a) {
        1nat
    } else {
        0nat
    }) + nbrs(ids, calls, a).filter(|b: int| b > a && labels[b] == labels[a]).len()
}

/// Distinct internal edges of a community (unordered pairs, self-calls too).
pub open spec fn internal_edges(ids: Seq<Seq<char>>, calls: Seq<CallEdgeV>, labels: Seq<Seq<char>>, ms: Seq<int>) -> nat
    decreases ms.len(),
{
    if ms.len() == 0 {
        0
    } else {
        internal_edges(ids, calls, labels, ms.drop_last()) + pairs_from(ids, calls, labels, ms.last())
    }
}

pub open spec fn in_label(ids: Seq<Seq<char>>, labels: Seq<Seq<char>>, id: Seq<char>, l: Seq<char>) -> bool {
    exists|j: int| 0 <= j < ids.len() && #[trigger] ids[j] == id && labels[j] == l
}

/// Some call inside the community is not strong.
pub open spec fn weak_inside(ids: Seq<Seq<char>>, calls: Seq<CallEdgeV>, labels: Seq<Seq<char>>, l: Seq<char>) -> bool {
    exists|k: int|
        0 <= k < calls.len() && in_label(ids, labels, #[trigger] calls[k].src, l) && in_label(
            ids,
            labels,
            calls[k].dst,
            l,
        ) && calls[k].conf != "strong"@
}

pub ghost struct CommunityV {
    pub members: Seq<Seq<char>>,
    pub hub: Seq<char>,
    pub conf: Seq<char>,
}

/// The community led by `i` (its first member), if it is one: at least
/// `MIN_COMMUNITY_SIZE` members and at least as many internal edges.
pub open spec fn community_at(ids: Seq<Seq<char>>, calls: Seq<CallEdgeV>, labels: Seq<Seq<char>>, i: int) -> Option<
    CommunityV,
> {
    let ms = members_of(labels, i);
    if first_of_label(labels, i) && ms.len() >= MIN_COMMUNITY_SIZE && internal_edges(
        ids,
        calls,
        labels,
        ms,
    ) >= ms.len() {
        Some(
            CommunityV {
                members: ms.map_values(|j: int| ids[j]),
                hub: ids[hub_of(ids, calls, ms, ms.len() as int)],
                conf: if weak_inside(ids, calls, labels, labels[i]) {
                    "weak"@
                } else {
                    "strong"@
                },
            },
        )
    } else {
        None
    }
}

pub open spec fn communities_upto(ids: Seq<Seq<char>>, calls: Seq<CallEdgeV>, labels: Seq<Seq<char>>, m: int) -> Seq<
    CommunityV,
>
    decreases m,
{
    if m <= 0 {
        Seq::empty()
    } else {
        communities_upto(ids, calls, labels, m - 1) + match community_at(ids, calls, labels, m - 1) {
            Some(c) => seq![c],
            None => Seq::empty(),
        }
    }
}

/// The communities of a calls graph, ordered by their first member.
pub open spec fn communities_spec(ids: Seq<Seq<char>>, calls: Seq<CallEdgeV>) -> Seq<CommunityV> {
    communities_upto(ids, calls, final_labels(ids, calls), ids.len() as int)
}

/// Filters with predicates that agree on the sequence agree.
proof fn lemma_filter_congr(s: Seq<int>, p: spec_fn(int) -> bool, q: spec_fn(int) -> bool)
    requires
        forall|t: int| 0 <= t < s.len() ==> p(#[trigger] s[t]) == q(s[t]),
    ensures
        s.filter(p) == s.filter(q),
    decreases s.len(),
{
    reveal(Seq::filter);
    if s.len() > 0 {
        assert forall|t: int| 0 <= t < s.drop_last().len() implies p(#[trigger] s.drop_last()[t]) == q(
            s.drop_last()[t],
        ) by {
            assert(s.drop_last()[t] == s[t]);
        }
        lemma_filter_congr(s.drop_last(), p, q);
        assert(p(s[s.len() - 1]) == q(s[s.len() - 1]));
    }
}

/// Symbols grouped by label index, each group in id order.
fn buckets(lab: &Vec<usize>, n: usize) -> (r: Vec<Vec<usize>>)
    requires
        lab@.len() == n,
        forall|t: int| 0 <= t < n ==> (#[trigger] lab@[t]) < n,
    ensures
        r@.len() == n,
        forall|p: int|
            0 <= p < n ==> (#[trigger] r@[p])@.map_values(|j: usize| j as int) == range(n as int).filter(
                label_is(lab@, p),
            ),
{
    let mut b: Vec<Vec<usize>> = Vec::new();
    let mut a: usize = 0;
    while a < n
        invariant
            a <= n,
            b@.len() == a,
            forall|t: int| 0 <= t < a ==> (#[trigger] b@[t])@.len() == 0,
        decreases n - a,
    {
        b.push(Vec::new());
        a += 1;
    }
    let mut j: usize = 0;
    while j < n
        invariant
            j <= n,
            lab@.len() == n,
            b@.len() == n,
            forall|t: int| 0 <= t < n ==> (#[trigger] lab@[t]) < n,
            forall|p: int|
                0 <= p < n ==> (#[trigger] b@[p])@.map_values(|x: usize| x as int) == range(n as int).take(
                    j as int,
                ).filter(label_is(lab@, p)),
        decreases n - j,
    {
        let p = lab[j];
        let ghost b0 = b@;
        let mut v = b.remove(p);
        v.push(j);
        b.insert(p, v);
        assert forall|q: int| 0 <= q < n implies (#[trigger] b@[q])@.map_values(|x: usize| x as int)
            == range(n as int).take(j + 1).filter(label_is(lab@, q)) by {
            reveal(Seq::filter);
            assert(range(n as int).take(j + 1).drop_last() =~= range(n as int).take(j as int));
            assert(range(n as int).take(j + 1).last() == j as int);
            if q == p as int {
                assert(b@[q]@.map_values(|x: usize| x as int) =~= b0[q]@.map_values(|x: usize| x as int).push(
                    j as int,
                ));
            } else {
                assert(b@[q] == b0[q]);
            }
        }
        j += 1;
    }
    assert(range(n as int).take(n as int) =~= range(n as int));
    b
}

/// The internal edges counted from member `a`.
fn pairs_from_exec(
    a: usize,
    adj: &Vec<Vec<usize>>,
    lab: &Vec<usize>,
    selfl: &Vec<bool>,
    Ghost(ids): Ghost<Seq<Seq<char>>>,
    Ghost(calls): Ghost<Seq<CallEdgeV>>,
) -> (r: u128)
    requires
        a < ids.len(),
        strictly_sorted(ids),
        adj@.len() == ids.len(),
        lab@.len() == ids.len(),
        selfl@.len() == ids.len(),
        forall|t: int| 0 <= t < ids.len() ==> (#[trigger] lab@[t]) < ids.len(),
        forall|t: int| 0 <= t < ids.len() ==> (#[trigger] selfl@[t] <==> self_call(ids, calls, t)),
        forall|i: int|
            0 <= i < ids.len() ==> (#[trigger] adj@[i])@.map_values(|j: usize| j as int) == nbrs(ids, calls, i),
    ensures
        r as int == pairs_from(ids, calls, label_strings(ids, lab@), a as int),
{
    let ghost ls = label_strings(ids, lab@);
    let nb = &adj[a];
    let ghost nbi = nb@.map_values(|j: usize| j as int);
    assert(nbi == nbrs(ids, calls, a as int));
    let ghost pred = |b: int| b > a && ls[b] == ls[a as int];
    let mut c: u128 = 0;
    let mut t: usize = 0;
    while t < nb.len()
        invariant
            t <= nb@.len(),
            a < ids.len(),
            strictly_sorted(ids),
            lab@.len() == ids.len(),
            forall|q: int| 0 <= q < ids.len() ==> (#[trigger] lab@[q]) < ids.len(),
            ls == label_strings(ids, lab@),
            nbi == nb@.map_values(|j: usize| j as int),
            nbi == nbrs(ids, calls, a as int),
            pred == (|b: int| b > a && ls[b] == ls[a as int]),
            c as int == nbi.take(t as int).filter(pred).len(),
            c <= t,
        decreases nb.len() - t,
    {
        proof {
            reveal(Seq::filter);
            lemma_nbrs_in_range(ids, calls, a as int, t as int);
        }
        assert(nbi.take(t + 1).drop_last() =~= nbi.take(t as int));
        assert(nbi.take(t + 1).last() == nb@[t as int] as int);
        let b = nb[t];
        proof {
            lemma_index_order(ids, lab@[b as int] as int, lab@[a as int] as int);
        }
        if b > a && lab[b] == lab[a] {
            c += 1;
        }
        t += 1;
    }
    assert(nbi.take(nb.len() as int) =~= nbi);
    if selfl[a] {
        c + 1
    } else {
        c
    }
}

/// One label-propagation community: its members (in id order), its hub
/// (the member with the most calls, the first on a tie), and its confidence.
#[derive(Debug, Clone)]
pub struct RawCommunity {
    pub members: Vec<String>,
    pub hub: String,
    pub conf: String,
}

impl View for RawCommunity {
    type V = CommunityV;

    open spec fn view(&self) -> CommunityV {
        CommunityV { members: str_views(self.members@), hub: self.hub@, conf: self.conf@ }
    }
}

pub open spec fn community_views(v: Seq<RawCommunity>) -> Seq<CommunityV> {
    v.map_values(|c: RawCommunity| c@)
}

fn owned(s: &str) -> (r: String)
    ensures
        r@ == s@,
{
    let mut r = String::new();
    crate::text::append_str(&mut r, s);
    r
}

/// Deterministic label propagation over the undirected `calls` graph of the
/// (sorted) symbols, then the clusters that pass the size and density
/// guards, ordered by their first member.
pub fn label_propagation_communities(symbol_ids: &[String], calls: &[CallEdge]) -> (r: Vec<RawCommunity>)
    requires
        strictly_sorted(str_views(symbol_ids@)),
        calls_within(str_views(symbol_ids@), edge_views(calls@)),
    ensures
        community_views(r@) == communities_spec(str_views(symbol_ids@), edge_views(calls@)),
{
    let ghost ids = str_views(symbol_ids@);
    let ghost cv = edge_views(calls@);
    let n = symbol_ids.len();
    let adj = neighbour_lists(symbol_ids, calls);
    let ix = endpoint_indices(symbol_ids, calls);
    assert forall|q: int|
        0 <= q < ix@.len() implies (#[trigger] ix@[q]).0 < n && ix@[q].1 < n && ids[ix@[q].0 as int]
            == cv[q].src && ids[ix@[q].1 as int] == cv[q].dst by {
        assert(cv[q] == calls@[q]@);
    }
    let lab = propagate_labels(&adj, n, Ghost(ids), Ghost(cv));
    let ghost labels = label_strings(ids, lab@);
    assert(labels == final_labels(ids, cv));
    let cnt = call_counts(&ix, n, Ghost(ids), Ghost(cv));
    let selfl = self_calls(&ix, n, Ghost(ids), Ghost(cv));
    let weak = weak_labels(&ix, &lab, calls, n, Ghost(ids));
    let groups = buckets(&lab, n);
    let mut seen: Vec<bool> = Vec::new();
    let mut a: usize = 0;
    while a < n
        invariant
            a <= n,
            seen@.len() == a,
            forall|t: int| 0 <= t < a ==> !(#[trigger] seen@[t]),
        decreases n - a,
    {
        seen.push(false);
        a += 1;
    }
    let mut out: Vec<RawCommunity> = Vec::new();
    let mut i: usize = 0;
    while i < n
        invariant
            i <= n == ids.len() == symbol_ids@.len(),
            ids == str_views(symbol_ids@),
            cv == edge_views(calls@),
            strictly_sorted(ids),
            labels == label_strings(ids, lab@),
            labels == final_labels(ids, cv),
            lab@.len() == n,
            forall|t: int| 0 <= t < n ==> (#[trigger] lab@[t]) < n,
            adj@.len() == n,
            forall|x: int|
                0 <= x < n ==> (#[trigger] adj@[x])@.map_values(|j: usize| j as int) == nbrs(ids, cv, x),
            cnt@.len() == n,
            forall|x: int| 0 <= x < n ==> (#[trigger] cnt@[x]) as int == call_count(cv, ids[x], cv.len() as int),
            selfl@.len() == n,
            forall|x: int| 0 <= x < n ==> (#[trigger] selfl@[x] <==> self_call(ids, cv, x)),
            weak@.len() == n,
            forall|p: int| 0 <= p < n ==> (#[trigger] weak@[p] <==> weak_inside(ids, cv, labels, ids[p])),
            groups@.len() == n,
            forall|p: int|
                0 <= p < n ==> (#[trigger] groups@[p])@.map_values(|j: usize| j as int) == range(n as int).filter(
                    label_is(lab@, p),
                ),
            seen@.len() == n,
            forall|p: int| 0 <= p < n ==> (#[trigger] seen@[p] <==> exists|j: int| 0 <= j < i && lab@[j] == p),
            community_views(out@) == communities_upto(ids, cv, labels, i as int),
        decreases n - i,
    {
        let p = lab[i];
        let ghost mi = members_of(labels, i as int);
        assert forall|j: int| 0 <= j < i implies (#[trigger] labels[j] != labels[i as int]) == (lab@[j] != p) by {
            lemma_index_order(ids, lab@[j] as int, p as int);
        }
        let ghost p1 = same_label(labels, i as int);
        let ghost p2 = label_is(lab@, p as int);
        proof {
            assert forall|t: int| 0 <= t < range(n as int).len() implies p1(#[trigger] range(n as int)[t])
                == p2(range(n as int)[t]) by {
                lemma_index_order(ids, lab@[t] as int, p as int);
            }
            lemma_filter_congr(range(n as int), p1, p2);
        }
        let ms = &groups[p];
        let ghost msi = ms@.map_values(|j: usize| j as int);
        assert(labels.len() == n);
        assert(mi == range(n as int).filter(p1));
        assert(ms@ == groups@[p as int]@);
        assert(msi == range(n as int).filter(p2));
        assert(msi == mi);
        let first = !seen[p];
        assert(first == first_of_label(labels, i as int)) by {
            if !first {
                let j = choose|j: int| 0 <= j < i && lab@[j] == p;
                assert(labels[j] == labels[i as int]);
            }
        }
        let ghost o0 = community_views(out@);
        if first && ms.len() >= MIN_COMMUNITY_SIZE {
            // internal edges
            let mut internal: u128 = 0;
            let mut t: usize = 0;
            while t < ms.len()
                invariant
                    t <= ms@.len(),
                    n == ids.len(),
                    strictly_sorted(ids),
                    labels == label_strings(ids, lab@),
                    lab@.len() == n,
                    forall|q: int| 0 <= q < n ==> (#[trigger] lab@[q]) < n,
                    adj@.len() == n,
                    forall|x: int|
                        0 <= x < n ==> (#[trigger] adj@[x])@.map_values(|j: usize| j as int) == nbrs(ids, cv, x),
                    selfl@.len() == n,
                    forall|x: int| 0 <= x < n ==> (#[trigger] selfl@[x] <==> self_call(ids, cv, x)),
                    msi == ms@.map_values(|j: usize| j as int),
                    msi == range(n as int).filter(label_is(lab@, p as int)),
                    internal as int == internal_edges(ids, cv, labels, msi.take(t as int)),
                    internal <= t * 18446744073709551617,
                decreases ms.len() - t,
            {
                proof {
                    lemma_filter_members(range(n as int), label_is(lab@, p as int), t as int);
                }
                let m = ms[t];
                assert(msi[t as int] == m as int);
                let c = pairs_from_exec(m, &adj, &lab, &selfl, Ghost(ids), Ghost(cv));
                assert(msi.take(t + 1).drop_last() =~= msi.take(t as int));
                assert(msi.take(t + 1).last() == m as int);
                internal = internal + c;
                t += 1;
            }
            assert(msi.take(ms.len() as int) =~= msi);
            if internal >= ms.len() as u128 {
                // hub: the first member with the most calls
                proof {
                    lemma_filter_members(range(n as int), label_is(lab@, p as int), 0);
                }
                let mut hub: usize = ms[0];
                let mut t: usize = 1;
                while t < ms.len()
                    invariant
                        1 <= t <= ms@.len(),
                        n == ids.len(),
                        msi == ms@.map_values(|j: usize| j as int),
                        msi == range(n as int).filter(label_is(lab@, p as int)),
                        cnt@.len() == n,
                        forall|x: int| 0 <= x < n ==> (#[trigger] cnt@[x]) as int == call_count(cv, ids[x], cv.len() as int),
                        hub < n,
                        hub as int == hub_of(ids, cv, msi, t as int),
                    decreases ms.len() - t,
                {
                    proof {
                        lemma_filter_members(range(n as int), label_is(lab@, p as int), t as int);
                    }
                    let m = ms[t];
                    assert(msi[t as int] == m as int);
                    if cnt[m] > cnt[hub] {
                        hub = m;
                    }
                    t += 1;
                }
                // members, in id order
                let mut members: Vec<String> = Vec::new();
                let mut t: usize = 0;
                while t < ms.len()
                    invariant
                        t <= ms@.len(),
                        n == ids.len() == symbol_ids@.len(),
                        ids == str_views(symbol_ids@),
                        msi == ms@.map_values(|j: usize| j as int),
                        msi == range(n as int).filter(label_is(lab@, p as int)),
                        str_views(members@) == msi.take(t as int).map_values(|j: int| ids[j]),
                    decreases ms.len() - t,
                {
                    proof {
                        lemma_filter_members(range(n as int), label_is(lab@, p as int), t as int);
                    }
                    let m = ms[t];
                    assert(msi[t as int] == m as int);
                    let ghost m0 = str_views(members@);
                    members.push(symbol_ids[m].clone());
                    assert(str_views(members@) =~= m0.push(ids[m as int]));
                    assert(msi.take(t + 1).map_values(|j: int| ids[j]) =~= msi.take(t as int).map_values(
                        |j: int| ids[j],
                    ).push(ids[m as int]));
                    t += 1;
                }
                assert(msi.take(ms.len() as int) =~= msi);
                assert(labels[i as int] == ids[p as int]);
                let conf = if weak[p] {
                    owned("weak")
                } else {
                    owned("strong")
                };
                let c = RawCommunity { members, hub: symbol_ids[hub].clone(), conf };
                let ghost c_v = c@;
                out.push(c);
                assert(community_at(ids, cv, labels, i as int) == Some(c_v));
                assert(community_views(out@) =~= o0.push(c_v));
            } else {
                assert(community_at(ids, cv, labels, i as int) is None);
            }
        } else {
            assert(community_at(ids, cv, labels, i as int) is None);
        }
        let ghost s0 = seen@;
        seen.set(p, true);
        assert forall|q: int| 0 <= q < n implies (#[trigger] seen@[q] <==> exists|j: int|
            0 <= j < i + 1 && lab@[j] == q) by {
            if s0[q] {
                let j = choose|j: int| 0 <= j < i && lab@[j] == q;
                assert(0 <= j < i + 1);
            }
        }
        i += 1;
    }
    out
}

/// Do the ids strictly increase?
pub fn ids_strictly_sorted(ids: &[String]) -> (r: bool)
    ensures
        r == strictly_sorted(str_views(ids@)),
{
    let ghost v = str_views(ids@);
    let mut i: usize = 1;
    if ids.len() == 0 {
        return true;
    }
    while i < ids.len()
        invariant
            1 <= i <= ids@.len(),
            v == str_views(ids@),
            forall|a: int, b: int| 0 <= a < b < i ==> lex_lt(#[trigger] v[a], #[trigger] v[b]),
        decreases ids.len() - i,
    {
        let x = chars_of(ids[i - 1].as_str());
        let y = chars_of(ids[i].as_str());
        assert(v[i - 1] == x@ && v[i as int] == y@);
        if !lex_lt_exec(&x, &y) {
            return false;
        }
        assert forall|a: int, b: int| 0 <= a < b < i + 1 implies lex_lt(#[trigger] v[a], #[trigger] v[b]) by {
            if b == i && a < i - 1 {
                lemma_lex_trans(v[a], v[i - 1], v[b]);
            }
        }
        i += 1;
    }
    true
}

/// The calls whose two ends are both symbols.
pub open spec fn symbol_calls_spec(ids: Seq<Seq<char>>, calls: Seq<CallEdgeV>) -> Seq<CallEdgeV> {
    calls.filter(|e: CallEdgeV| ids.contains(e.src) && ids.contains(e.dst))
}

/// Keep the calls between two known symbols.
pub fn symbol_calls(ids: &[String], calls: &[CallEdge]) -> (r: Vec<CallEdge>)
    requires
        strictly_sorted(str_views(ids@)),
    ensures
        edge_views(r@) == symbol_calls_spec(str_views(ids@), edge_views(calls@)),
        calls_within(str_views(ids@), edge_views(r@)),
{
    let ghost v = str_views(ids@);
    let ghost cv = edge_views(calls@);
    let ghost pred = |e: CallEdgeV| v.contains(e.src) && v.contains(e.dst);
    let mut out: Vec<CallEdge> = Vec::new();
    let mut k: usize = 0;
    while k < calls.len()
        invariant
            k <= calls@.len(),
            v == str_views(ids@),
            cv == edge_views(calls@),
            strictly_sorted(v),
            pred == (|e: CallEdgeV| v.contains(e.src) && v.contains(e.dst)),
            edge_views(out@) == cv.take(k as int).filter(pred),
            calls_within(v, edge_views(out@)),
        decreases calls.len() - k,
    {
        proof {
            reveal(Seq::filter);
        }
        assert(cv.take(k + 1).drop_last() =~= cv.take(k as int));
        assert(cv.take(k + 1).last() == calls@[k as int]@);
        let e = &calls[k];
        let s = position_of(ids, &e.src);
        let d = position_of(ids, &e.dst);
        if s.is_some() && d.is_some() {
            proof {
                let a = s->Some_0 as int;
                let b = d->Some_0 as int;
                assert(v[a] == e@.src);
                assert(v[b] == e@.dst);
            }
            let ghost o0 = edge_views(out@);
            out.push(CallEdge { src: e.src.clone(), dst: e.dst.clone(), conf: e.conf.clone() });
            assert(edge_views(out@) =~= o0.push(e@));
            assert forall|q: int| 0 <= q < edge_views(out@).len() implies v.contains(
                #[trigger] edge_views(out@)[q].src,
            ) && v.contains(edge_views(out@)[q].dst) by {
                if q < o0.len() {
                    assert(edge_views(out@)[q] == o0[q]);
                }
            }
        }
        k += 1;
    }
    assert(cv.take(calls.len() as int) =~= cv);
    out
}


// ------------------------------------------------------------------ laws ---

proof fn lemma_sweep_len(ids: Seq<Seq<char>>, calls: Seq<CallEdgeV>, labels: Seq<Seq<char>>, m: int)
    requires
        m <= labels.len(),
    ensures
        sweep(ids, calls, labels, m).labels.len() == labels.len(),
    decreases m,
{
    if m > 0 {
        lemma_sweep_len(ids, calls, labels, m - 1);
    }
}

proof fn lemma_propagate_len(ids: Seq<Seq<char>>, calls: Seq<CallEdgeV>, labels: Seq<Seq<char>>, rounds: nat)
    requires
        labels.len() == ids.len(),
    ensures
        propagate(ids, calls, labels, rounds).len() == labels.len(),
    decreases rounds,
{
    if rounds > 0 {
        lemma_sweep_len(ids, calls, labels, ids.len() as int);
        let s = sweep(ids, calls, labels, ids.len() as int);
        lemma_propagate_len(ids, calls, s.labels, (rounds - 1) as nat);
    }
}

/// The `a`-th community below `m` is led by some `i < m`, with exactly `a`
/// communities led before `i`.
proof fn lemma_leader(ids: Seq<Seq<char>>, calls: Seq<CallEdgeV>, labels: Seq<Seq<char>>, m: int, a: int) -> (i: int)
    requires
        0 <= a < communities_upto(ids, calls, labels, m).len(),
    ensures
        0 <= i < m,
        community_at(ids, calls, labels, i) == Some(communities_upto(ids, calls, labels, m)[a]),
        communities_upto(ids, calls, labels, i).len() == a,
    decreases m,
{
    let prev = communities_upto(ids, calls, labels, m - 1);
    if a < prev.len() {
        let i = lemma_leader(ids, calls, labels, m - 1, a);
        assert(communities_upto(ids, calls, labels, m)[a] == prev[a]);
        i
    } else {
        m - 1
    }
}

/// A member of the community led by `i` is an id whose label is `i`'s.
proof fn lemma_member_label(ids: Seq<Seq<char>>, calls: Seq<CallEdgeV>, labels: Seq<Seq<char>>, i: int, x: Seq<char>)
    requires
        community_at(ids, calls, labels, i) is Some,
        community_at(ids, calls, labels, i).unwrap().members.contains(x),
    ensures
        exists|j: int| 0 <= j < labels.len() && ids[j] == x && #[trigger] labels[j] == labels[i],
{
    let ms = members_of(labels, i);
    let mv = ms.map_values(|j: int| ids[j]);
    let t = choose|t: int| 0 <= t < mv.len() && mv[t] == x;
    let r = range(labels.len() as int);
    r.lemma_filter_pred(same_label(labels, i), t);
    lemma_filter_members(r, same_label(labels, i), t);
    let j = ms[t];
    assert(ids[j] == x);
    assert(labels[j] == labels[i]);
}

/// Communities partition the symbols they cover: no symbol belongs to two
/// of them, and each has at least `MIN_COMMUNITY_SIZE` members.
pub proof fn lemma_communities_are_disjoint(ids: Seq<Seq<char>>, calls: Seq<CallEdgeV>, a: int, b: int, x: Seq<char>)
    requires
        strictly_sorted(ids),
        0 <= a < b < communities_spec(ids, calls).len(),
    ensures
        communities_spec(ids, calls)[a].members.contains(x) ==> !communities_spec(ids, calls)[b].members.contains(x),
        communities_spec(ids, calls)[a].members.len() >= MIN_COMMUNITY_SIZE,
{
    let labels = final_labels(ids, calls);
    lemma_propagate_len(ids, calls, ids, LABEL_PROP_MAX_ROUNDS as nat);
    let n = ids.len() as int;
    let ia = lemma_leader(ids, calls, labels, n, a);
    let ib = lemma_leader(ids, calls, labels, n, b);
    assert(ia != ib);
    if communities_spec(ids, calls)[a].members.contains(x) && communities_spec(ids, calls)[b].members.contains(x) {
        lemma_member_label(ids, calls, labels, ia, x);
        lemma_member_label(ids, calls, labels, ib, x);
        let ja = choose|j: int| 0 <= j < labels.len() && ids[j] == x && #[trigger] labels[j] == labels[ia];
        let jb = choose|j: int| 0 <= j < labels.len() && ids[j] == x && #[trigger] labels[j] == labels[ib];
        lemma_sorted_unique(ids, ja, jb);
        if ia < ib {
            assert(labels[ia] != labels[ib]);
        } else {
            assert(labels[ib] != labels[ia]);
        }
    }
}


/// How many calls `id` makes or receives.
pub open spec fn calls_of(calls: Seq<CallEdgeV>, id: Seq<char>) -> nat {
    call_count(calls, id, calls.len() as int)
}

proof fn lemma_hub_is_busiest(ids: Seq<Seq<char>>, calls: Seq<CallEdgeV>, ms: Seq<int>, m: int) -> (h: int)
    requires
        1 <= m <= ms.len(),
    ensures
        0 <= h < m,
        hub_of(ids, calls, ms, m) == ms[h],
        forall|t: int| 0 <= t < m ==> calls_of(calls, ids[#[trigger] ms[t]]) <= calls_of(calls, ids[ms[h]]),
        forall|t: int| 0 <= t < h ==> calls_of(calls, ids[#[trigger] ms[t]]) < calls_of(calls, ids[ms[h]]),
    decreases m,
{
    if m == 1 {
        0
    } else {
        let h0 = lemma_hub_is_busiest(ids, calls, ms, m - 1);
        if calls_of(calls, ids[ms[m - 1]]) > calls_of(calls, ids[ms[h0]]) {
            m - 1
        } else {
            h0
        }
    }
}

/// The hub of every community is its busiest member: a member with at least
/// as many calls (made or received) as every other member, and strictly
/// more than every member before it (ties go to the first in id order).
pub proof fn lemma_hub_is_the_busiest_member(ids: Seq<Seq<char>>, calls: Seq<CallEdgeV>, a: int)
    requires
        0 <= a < communities_spec(ids, calls).len(),
    ensures
        exists|h: int|
            0 <= h < communities_spec(ids, calls)[a].members.len() && communities_spec(ids, calls)[a].hub
                == communities_spec(ids, calls)[a].members[h] && (forall|t: int|
                0 <= t < communities_spec(ids, calls)[a].members.len() ==> calls_of(
                    calls,
                    #[trigger] communities_spec(ids, calls)[a].members[t],
                ) <= calls_of(calls, communities_spec(ids, calls)[a].hub)) && (forall|t: int|
                0 <= t < h ==> calls_of(calls, #[trigger] communities_spec(ids, calls)[a].members[t])
                    < calls_of(calls, communities_spec(ids, calls)[a].hub)),
{
    let labels = final_labels(ids, calls);
    let n = ids.len() as int;
    let i = lemma_leader(ids, calls, labels, n, a);
    let c = communities_spec(ids, calls)[a];
    let ms = members_of(labels, i);
    assert(community_at(ids, calls, labels, i) == Some(c));
    assert(ms.len() >= MIN_COMMUNITY_SIZE);
    let h = lemma_hub_is_busiest(ids, calls, ms, ms.len() as int);
    assert(c.members == ms.map_values(|j: int| ids[j]));
    assert(c.hub == ids[ms[h]]);
    assert(c.members[h] == ids[ms[h]]);
    assert forall|t: int| 0 <= t < c.members.len() implies calls_of(calls, #[trigger] c.members[t]) <= calls_of(
        calls,
        c.hub,
    ) by {
        assert(c.members[t] == ids[ms[t]]);
    }
    assert forall|t: int| 0 <= t < h implies calls_of(calls, #[trigger] c.members[t]) < calls_of(calls, c.hub) by {
        assert(c.members[t] == ids[ms[t]]);
    }
}


/// An id is a member of the community led by `i` exactly when it carries
/// `i`'s label.
proof fn lemma_members_are_the_label(ids: Seq<Seq<char>>, calls: Seq<CallEdgeV>, labels: Seq<Seq<char>>, i: int, x: Seq<char>)
    requires
        labels.len() == ids.len(),
        community_at(ids, calls, labels, i) is Some,
    ensures
        community_at(ids, calls, labels, i).unwrap().members.contains(x) <==> in_label(ids, labels, x, labels[i]),
{
    let ms = members_of(labels, i);
    let mv = ms.map_values(|j: int| ids[j]);
    assert(community_at(ids, calls, labels, i).unwrap().members == mv);
    if mv.contains(x) {
        lemma_member_label(ids, calls, labels, i, x);
        let j = choose|j: int| 0 <= j < labels.len() && ids[j] == x && #[trigger] labels[j] == labels[i];
        assert(in_label(ids, labels, x, labels[i]));
    }
    if in_label(ids, labels, x, labels[i]) {
        let j = choose|j: int| 0 <= j < ids.len() && #[trigger] ids[j] == x && labels[j] == labels[i];
        let r = range(labels.len() as int);
        assert(r[j] == j);
        assert(same_label(labels, i)(r[j]));
        r.lemma_filter_contains(same_label(labels, i), j);
        assert(ms.contains(j));
        let t = choose|t: int| 0 <= t < ms.len() && ms[t] == j;
        assert(mv[t] == x);
    }
}

/// A community is strong exactly when every call between two of its
/// members is strong; its confidence is always `strong` or `weak`.
pub proof fn lemma_community_conf_is_its_calls(ids: Seq<Seq<char>>, calls: Seq<CallEdgeV>, a: int)
    requires
        0 <= a < communities_spec(ids, calls).len(),
    ensures
        communities_spec(ids, calls)[a].conf == "strong"@ || communities_spec(ids, calls)[a].conf == "weak"@,
        communities_spec(ids, calls)[a].conf == "strong"@ <==> forall|k: int|
            0 <= k < calls.len() && communities_spec(ids, calls)[a].members.contains(#[trigger] calls[k].src)
                && communities_spec(ids, calls)[a].members.contains(calls[k].dst) ==> calls[k].conf == "strong"@,
{
    let labels = final_labels(ids, calls);
    lemma_propagate_len(ids, calls, ids, LABEL_PROP_MAX_ROUNDS as nat);
    let n = ids.len() as int;
    let i = lemma_leader(ids, calls, labels, n, a);
    let c = communities_spec(ids, calls)[a];
    assert(community_at(ids, calls, labels, i) == Some(c));
    reveal_strlit("strong");
    reveal_strlit("weak");
    assert("strong"@ != "weak"@) by {
        assert("strong"@.len() != "weak"@.len());
    }
    assert forall|k: int| 0 <= k < calls.len() implies (c.members.contains(#[trigger] calls[k].src)
        <==> in_label(ids, labels, calls[k].src, labels[i])) && (c.members.contains(calls[k].dst) <==> in_label(
        ids,
        labels,
        calls[k].dst,
        labels[i],
    )) by {
        lemma_members_are_the_label(ids, calls, labels, i, calls[k].src);
        lemma_members_are_the_label(ids, calls, labels, i, calls[k].dst);
    }
}

proof fn lemma_filter_increasing(s: Seq<int>, p: spec_fn(int) -> bool)
    requires
        forall|i: int, j: int| 0 <= i < j < s.len() ==> #[trigger] s[i] < #[trigger] s[j],
    ensures
        forall|i: int, j: int| 0 <= i < j < s.filter(p).len() ==> #[trigger] s.filter(p)[i] < #[trigger] s.filter(p)[j],
    decreases s.len(),
{
    reveal(Seq::filter);
    if s.len() > 0 {
        let t = s.drop_last();
        assert forall|i: int, j: int| 0 <= i < j < t.len() implies #[trigger] t[i] < #[trigger] t[j] by {
            assert(t[i] == s[i] && t[j] == s[j]);
        }
        lemma_filter_increasing(t, p);
        let rest = t.filter(p);
        if p(s.last()) {
            let f = s.filter(p);
            assert(f == rest.push(s.last()));
            assert forall|i: int, j: int| 0 <= i < j < f.len() implies #[trigger] f[i] < #[trigger] f[j] by {
                if j < rest.len() {
                    assert(f[i] == rest[i] && f[j] == rest[j]);
                } else {
                    lemma_filter_members(t, p, i);
                    let k = choose|k: int| 0 <= k < t.len() && t[k] == rest[i];
                    assert(s[k] < s[s.len() - 1]);
                    assert(f[i] == rest[i]);
                }
            }
        }
    }
}

/// A community lists its members once each, in id order, and each is one
/// of the symbols.
pub proof fn lemma_community_members_in_id_order(ids: Seq<Seq<char>>, calls: Seq<CallEdgeV>, a: int)
    requires
        strictly_sorted(ids),
        0 <= a < communities_spec(ids, calls).len(),
    ensures
        forall|x: int, y: int|
            0 <= x < y < communities_spec(ids, calls)[a].members.len() ==> lex_lt(
                #[trigger] communities_spec(ids, calls)[a].members[x],
                #[trigger] communities_spec(ids, calls)[a].members[y],
            ),
        forall|x: int|
            0 <= x < communities_spec(ids, calls)[a].members.len() ==> ids.contains(
                #[trigger] communities_spec(ids, calls)[a].members[x],
            ),
{
    let labels = final_labels(ids, calls);
    lemma_propagate_len(ids, calls, ids, LABEL_PROP_MAX_ROUNDS as nat);
    let n = ids.len() as int;
    let i = lemma_leader(ids, calls, labels, n, a);
    let c = communities_spec(ids, calls)[a];
    assert(community_at(ids, calls, labels, i) == Some(c));
    let r = range(labels.len() as int);
    let ms = members_of(labels, i);
    lemma_filter_increasing(r, same_label(labels, i));
    assert(c.members == ms.map_values(|j: int| ids[j]));
    assert forall|x: int| 0 <= x < ms.len() implies 0 <= #[trigger] ms[x] < n by {
        lemma_filter_members(r, same_label(labels, i), x);
        let k = choose|k: int| 0 <= k < r.len() && r[k] == ms[x];
        assert(r[k] == k);
    }
    assert forall|x: int, y: int| 0 <= x < y < c.members.len() implies lex_lt(
        #[trigger] c.members[x],
        #[trigger] c.members[y],
    ) by {
        assert(ms[x] < ms[y]);
        assert(c.members[x] == ids[ms[x]] && c.members[y] == ids[ms[y]]);
    }
    assert forall|x: int| 0 <= x < c.members.len() implies ids.contains(#[trigger] c.members[x]) by {
        assert(c.members[x] == ids[ms[x]]);
        assert(0 <= ms[x] < n);
    }
}

} // verus!
