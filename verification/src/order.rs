//! Stable ordering of report rows by `(rank, file, line)`: rank ascending,
//! then file path in code point order, then line.

use vstd::prelude::*;
use crate::group::{lex_lt, lemma_lex_total, lemma_lex_trans, lemma_lex_asym, lex_lt_exec};

verus! {

/// A sort key: rank, file path, line.
pub type KeyV = (int, Seq<char>, int);

/// `a` goes strictly after `b`.
pub open spec fn key_after(a: KeyV, b: KeyV) -> bool {
    a.0 > b.0 || (a.0 == b.0 && (lex_lt(b.1, a.1) || (a.1 == b.1 && a.2 > b.2)))
}

/// Where item `x` goes in `order`: before the first item whose key is after
/// its own (so equal keys keep their input order).
pub open spec fn slot(order: Seq<int>, keys: Seq<KeyV>, x: int, i: int) -> int
    decreases order.len() - i,
{
    if i < 0 || i >= order.len() {
        order.len() as int
    } else if key_after(keys[order[i]], keys[x]) {
        i
    } else {
        slot(order, keys, x, i + 1)
    }
}

/// The stable sort of items `0..n` by key, as a list of item indices.
pub open spec fn sorted_order(keys: Seq<KeyV>, n: int) -> Seq<int>
    decreases n,
{
    if n <= 0 {
        Seq::empty()
    } else {
        let o = sorted_order(keys, n - 1);
        o.insert(slot(o, keys, n - 1, 0), n - 1)
    }
}

/// Keys never go after a later key in a sorted order.
pub open spec fn in_key_order(keys: Seq<KeyV>, order: Seq<int>) -> bool {
    forall|i: int, j: int|
        0 <= i < j < order.len() ==> !key_after(#[trigger] keys[order[i]], #[trigger] keys[order[j]])
}

proof fn lemma_key_total(a: KeyV, b: KeyV)
    ensures
        key_after(a, b) || key_after(b, a) || a == b,
{
    lemma_lex_total(a.1, b.1);
}

proof fn lemma_slot_facts(order: Seq<int>, keys: Seq<KeyV>, x: int, i: int)
    requires
        0 <= i <= order.len(),
    ensures
        i <= slot(order, keys, x, i) <= order.len(),
        forall|k: int| i <= k < slot(order, keys, x, i) ==> !key_after(#[trigger] keys[order[k]], keys[x]),
        slot(order, keys, x, i) < order.len() ==> key_after(keys[order[slot(order, keys, x, i)]], keys[x]),
    decreases order.len() - i,
{
    if i < order.len() && !key_after(keys[order[i]], keys[x]) {
        lemma_slot_facts(order, keys, x, i + 1);
    }
}

/// A stable sort's order is sorted by key.
pub proof fn lemma_sorted_order_sorted(keys: Seq<KeyV>, n: int)
    requires
        0 <= n <= keys.len(),
    ensures
        in_key_order(keys, sorted_order(keys, n)),
        sorted_order(keys, n).len() == n,
        forall|i: int| 0 <= i < n ==> 0 <= #[trigger] sorted_order(keys, n)[i] < n,
    decreases n,
{
    if n > 0 {
        lemma_sorted_order_sorted(keys, n - 1);
        let o = sorted_order(keys, n - 1);
        let p = slot(o, keys, n - 1, 0);
        lemma_slot_facts(o, keys, n - 1, 0);
        let o2 = o.insert(p, n - 1);
        assert forall|i: int, j: int| 0 <= i < j < o2.len() implies !key_after(
            #[trigger] keys[o2[i]],
            #[trigger] keys[o2[j]],
        ) by {
            if i < p && j == p {
            } else if i == p && j > p {
                if j - 1 > p {
                    let a = keys[o[p]];
                    assert(key_after(a, keys[n - 1]));
                    assert(!key_after(a, keys[o[j - 1]]));
                    lemma_key_total(keys[n - 1], a);
                    if key_after(keys[n - 1], keys[o[j - 1]]) {
                        lemma_key_total(a, keys[o[j - 1]]);
                        lemma_key_trans_strict(a, keys[n - 1], keys[o[j - 1]]);
                    }
                } else {
                    lemma_key_total(keys[n - 1], keys[o[p]]);
                    lemma_after_asym(keys[o[p]], keys[n - 1]);
                }
            } else if i < p && j > p {
                assert(!key_after(keys[o[i]], keys[o[j - 1]]));
            } else if j < p {
                assert(!key_after(keys[o[i]], keys[o[j]]));
            } else {
                assert(!key_after(keys[o[i - 1]], keys[o[j - 1]]));
            }
        }
        assert forall|i: int| 0 <= i < n implies 0 <= #[trigger] o2[i] < n by {
            if i < p {
                assert(o2[i] == o[i]);
            } else if i > p {
                assert(o2[i] == o[i - 1]);
            }
        }
    }
}

proof fn lemma_after_asym(a: KeyV, b: KeyV)
    requires
        key_after(a, b),
    ensures
        !key_after(b, a),
{
    if a.0 == b.0 && lex_lt(b.1, a.1) {
        lemma_lex_asym(b.1, a.1);
    }
    if a.0 == b.0 && a.1 == b.1 {
        crate::group::lemma_lex_irreflexive(a.1);
    }
}

proof fn lemma_key_trans_strict(a: KeyV, b: KeyV, c: KeyV)
    requires
        key_after(a, b),
        key_after(b, c),
    ensures
        key_after(a, c),
{
    if a.0 == b.0 && b.0 == c.0 {
        if lex_lt(b.1, a.1) && lex_lt(c.1, b.1) {
            lemma_lex_trans(c.1, b.1, a.1);
        }
    }
}

/// The item indices of `keys` in stable key order.
pub fn stable_order(keys: &Vec<(u64, Vec<char>, i64)>) -> (r: Vec<usize>)
    ensures
        r@.map_values(|i: usize| i as int) == sorted_order(key_views(keys@), keys@.len() as int),
{
    let ghost kv = key_views(keys@);
    let mut order: Vec<usize> = Vec::new();
    let mut x: usize = 0;
    assert(order@.map_values(|i: usize| i as int) =~= sorted_order(kv, 0));
    while x < keys.len()
        invariant
            x <= keys@.len(),
            kv == key_views(keys@),
            order@.map_values(|i: usize| i as int) == sorted_order(kv, x as int),
            forall|i: int| 0 <= i < order@.len() ==> #[trigger] order@[i] < x,
        decreases keys.len() - x,
    {
        let ghost o = sorted_order(kv, x as int);
        let mut p: usize = 0;
        let mut stop = false;
        while !stop && p < order.len()
            invariant
                p <= order@.len(),
                x < keys@.len(),
                kv == key_views(keys@),
                o == order@.map_values(|i: usize| i as int),
                forall|i: int| 0 <= i < order@.len() ==> #[trigger] order@[i] < x,
                slot(o, kv, x as int, 0) == slot(o, kv, x as int, p as int),
                stop ==> p < o.len() && key_after(kv[o[p as int]], kv[x as int]),
            decreases order.len() - p + (if stop {
                0int
            } else {
                1int
            }),
        {
            let a = &keys[order[p]];
            let b = &keys[x];
            assert(kv[o[p as int]] == (a.0 as int, a.1@, a.2 as int));
            assert(kv[x as int] == (b.0 as int, b.1@, b.2 as int));
            let after = a.0 > b.0 || (a.0 == b.0 && (lex_lt_exec(&b.1, &a.1) || (crate::text::seq_eq(
                &a.1,
                &b.1,
            ) && a.2 > b.2)));
            if after {
                stop = true;
            } else {
                p += 1;
            }
        }
        order.insert(p, x);
        assert(order@.map_values(|i: usize| i as int) =~= o.insert(p as int, x as int));
        x += 1;
    }
    order
}

pub open spec fn key_views(keys: Seq<(u64, Vec<char>, i64)>) -> Seq<KeyV> {
    keys.map_values(|k: (u64, Vec<char>, i64)| (k.0 as int, k.1@, k.2 as int))
}

} // verus!
