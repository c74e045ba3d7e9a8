//! Dependency ordering over node indices: the least-first topological order
//! and the proof that a stuck ordering has no completion.

use vstd::prelude::*;

verus! {

pub open spec fn pred_views(preds: Seq<Vec<usize>>) -> Seq<Seq<usize>> {
    preds.map_values(|p: Vec<usize>| p@)
}

/// `preds[v]` lists the nodes that must be placed before `v`, once per edge.
pub open spec fn preds_in_range(preds: Seq<Seq<usize>>) -> bool {
    forall|v: int, k: int| 0 <= v < preds.len() && 0 <= k < preds[v].len() ==> #[trigger] preds[v][k] < preds.len()
}

pub open spec fn distinct(s: Seq<usize>) -> bool {
    forall|i: int, j: int| 0 <= i < j < s.len() ==> #[trigger] s[i] != #[trigger] s[j]
}

/// `v` can be placed after the nodes in `placed`: it has no repeated
/// predecessor, and every predecessor is already placed.
pub open spec fn ready(preds: Seq<Seq<usize>>, placed: Seq<usize>, v: int) -> bool {
    &&& distinct(preds[v])
    &&& forall|k: int| 0 <= k < preds[v].len() ==> placed.contains(#[trigger] preds[v][k])
}

/// Every node of `order` is a node, appears once, and was ready when placed.
pub open spec fn valid_order(preds: Seq<Seq<usize>>, order: Seq<usize>) -> bool {
    &&& distinct(order)
    &&& forall|k: int| 0 <= k < order.len() ==> #[trigger] order[k] < preds.len()
    &&& forall|k: int| 0 <= k < order.len() ==> ready(preds, order.subrange(0, k), #[trigger] order[k] as int)
}

/// At each step the least ready node was chosen.
pub open spec fn least_first(preds: Seq<Seq<usize>>, order: Seq<usize>) -> bool {
    forall|k: int, v: int|
        #![trigger ready(preds, order.subrange(0, k), v)]
        0 <= k < order.len() && 0 <= v < order[k] && !order.subrange(0, k).contains(v as usize)
            ==> !ready(preds, order.subrange(0, k), v)
}

/// No node outside `order` is ready after it.
pub open spec fn stuck(preds: Seq<Seq<usize>>, order: Seq<usize>) -> bool {
    forall|v: int| 0 <= v < preds.len() && !order.contains(v as usize) ==> !#[trigger] ready(preds, order, v)
}

/// There is an order placing every node.
pub open spec fn completable(preds: Seq<Seq<usize>>) -> bool {
    exists|order: Seq<usize>| order.len() == preds.len() && #[trigger] valid_order(preds, order)
}

fn contains_index(v: &Vec<usize>, x: usize) -> (found: bool)
    ensures
        found == v@.contains(x),
{
    let mut i: usize = 0;
    while i < v.len()
        invariant
            0 <= i <= v@.len(),
            forall|j: int| 0 <= j < i ==> v@[j] != x,
        decreases v.len() - i,
    {
        if v[i] == x {
            return true;
        }
        i = i + 1;
    }
    false
}

fn is_ready(preds: &Vec<Vec<usize>>, placed: &Vec<bool>, order: &Vec<usize>, v: usize) -> (r: bool)
    requires
        v < preds@.len(),
        placed@.len() == preds@.len(),
        forall|x: int| 0 <= x < placed@.len() ==> (#[trigger] placed@[x] <==> order@.contains(x as usize)),
        preds_in_range(pred_views(preds@)),
    ensures
        r == ready(pred_views(preds@), order@, v as int),
{
    let ghost ps = pred_views(preds@);
    let list = &preds[v];
    assert(list@ == ps[v as int]);
    let mut i: usize = 0;
    while i < list.len()
        invariant
            0 <= i <= list@.len(),
            list@ == ps[v as int],
            ps == pred_views(preds@),
            v < ps.len(),
            placed@.len() == ps.len(),
            preds_in_range(ps),
            forall|x: int| 0 <= x < placed@.len() ==> (#[trigger] placed@[x] <==> order@.contains(x as usize)),
            forall|k: int| 0 <= k < i ==> order@.contains(#[trigger] list@[k]),
            forall|a: int, b: int| 0 <= a < b < i ==> #[trigger] list@[a] != #[trigger] list@[b],
        decreases list.len() - i,
    {
        let p = list[i];
        assert(p < ps.len());
        if !placed[p] {
            assert(!placed@[p as int]);
            assert(!order@.contains(ps[v as int][i as int]));
            assert(!ready(ps, order@, v as int));
            return false;
        }
        let mut j: usize = 0;
        while j < i
            invariant
                0 <= j <= i,
                i < list@.len(),
                p == list@[i as int],
                list@ == ps[v as int],
                ps == pred_views(preds@),
                v < ps.len(),
                forall|a: int| 0 <= a < j ==> list@[a] != p,
            decreases i - j,
        {
            if list[j] == p {
                assert(ps[v as int][j as int] == ps[v as int][i as int]);
                assert(!distinct(ps[v as int]));
                return false;
            }
            j = j + 1;
        }
        i = i + 1;
    }
    true
}

fn find_ready(preds: &Vec<Vec<usize>>, placed: &Vec<bool>, order: &Vec<usize>) -> (chosen: Option<usize>)
    requires
        placed@.len() == preds@.len(),
        forall|x: int| 0 <= x < placed@.len() ==> (#[trigger] placed@[x] <==> order@.contains(x as usize)),
        preds_in_range(pred_views(preds@)),
    ensures
        chosen matches Some(c) ==> c < preds@.len() && !order@.contains(c) && ready(
            pred_views(preds@),
            order@,
            c as int,
        ),
        forall|x: int|
            0 <= x < preds@.len() && (chosen matches Some(c) ==> x < c) && !order@.contains(x as usize)
                ==> !#[trigger] ready(pred_views(preds@), order@, x),
{
    let ghost ps = pred_views(preds@);
    let n = preds.len();
    let mut v: usize = 0;
    while v < n
        invariant
            0 <= v <= n,
            n == preds@.len(),
            ps == pred_views(preds@),
            preds_in_range(ps),
            placed@.len() == n,
            forall|x: int| 0 <= x < n ==> (#[trigger] placed@[x] <==> order@.contains(x as usize)),
            forall|x: int| 0 <= x < v && !order@.contains(x as usize) ==> !#[trigger] ready(ps, order@, x),
        decreases n - v,
    {
        if !placed[v] && is_ready(preds, placed, order, v) {
            assert(!order@.contains(v));
            return Some(v);
        }
        v = v + 1;
    }
    None
}

/// Place nodes one at a time, always the least ready one, until none is ready.
pub fn least_first_order(preds: &Vec<Vec<usize>>) -> (order: Vec<usize>)
    requires
        preds_in_range(pred_views(preds@)),
    ensures
        valid_order(pred_views(preds@), order@),
        least_first(pred_views(preds@), order@),
        stuck(pred_views(preds@), order@),
        order@.len() <= preds@.len(),
{
    let ghost ps = pred_views(preds@);
    let n = preds.len();
    let mut placed: Vec<bool> = Vec::new();
    let mut i: usize = 0;
    while i < n
        invariant
            0 <= i <= n,
            placed@.len() == i,
            forall|x: int| 0 <= x < i ==> !#[trigger] placed@[x],
        decreases n - i,
    {
        placed.push(false);
        i = i + 1;
    }
    let mut order: Vec<usize> = Vec::new();
    loop
        invariant
            n == preds@.len(),
            ps == pred_views(preds@),
            ps.len() == n,
            preds_in_range(ps),
            placed@.len() == n,
            forall|x: int| 0 <= x < n ==> (#[trigger] placed@[x] <==> order@.contains(x as usize)),
            valid_order(ps, order@),
            least_first(ps, order@),
            order@.len() <= n,
        decreases n - order@.len(),
    {
        let chosen = find_ready(preds, &placed, &order);
        match chosen {
            None => {
                assert(stuck(ps, order@));
                return order;
            },
            Some(c) => {
                let ghost before = order@;
                assert(!before.contains(c));
                assert(ready(ps, before, c as int));
                order.push(c);
                proof {
                    lemma_distinct_count(order@, n as int);
                }
                placed.set(c, true);
                assert(order@.subrange(0, before.len() as int) =~= before);
                assert forall|k: int| 0 <= k < order@.len() implies ready(
                    ps,
                    order@.subrange(0, k),
                    #[trigger] order@[k] as int,
                ) by {
                    if k < before.len() {
                        assert(order@.subrange(0, k) =~= before.subrange(0, k));
                    }
                }
                assert forall|k: int, w: int|
                    #![trigger ready(ps, order@.subrange(0, k), w)]
                    0 <= k < order@.len() && 0 <= w < order@[k] && !order@.subrange(
                        0,
                        k,
                    ).contains(w as usize) implies !ready(ps, order@.subrange(0, k), w) by {
                    if k < before.len() {
                        assert(order@.subrange(0, k) =~= before.subrange(0, k));
                        assert(order@[k] == before[k]);
                    }
                }
                assert forall|x: int| 0 <= x < n implies (#[trigger] placed@[x] <==> order@.contains(
                    x as usize,
                )) by {
                    if x == c {
                        assert(order@[before.len() as int] == c);
                    } else if order@.contains(x as usize) {
                        let j = choose|j: int| 0 <= j < order@.len() && order@[j] == x as usize;
                        if j < before.len() {
                            assert(before[j] == x as usize);
                        }
                    } else if before.contains(x as usize) {
                        let j = choose|j: int| 0 <= j < before.len() && before[j] == x as usize;
                        assert(order@[j] == x as usize);
                    }
                }
            },
        }
    }
}

/// A distinct sequence of indices below `n` is no longer than `n`.
pub proof fn lemma_distinct_count(s: Seq<usize>, n: int)
    requires
        distinct(s),
        forall|k: int| 0 <= k < s.len() ==> #[trigger] s[k] < n,
        0 <= n,
    ensures
        s.len() <= n,
{
    broadcast use vstd::seq_lib::seq_to_set_is_finite;
    let t = s.map_values(|x: usize| x as int);
    assert(t.no_duplicates());
    assert(t.to_set().subset_of(vstd::set_lib::set_int_range(0, n)));
    vstd::set_lib::lemma_int_range(0, n);
    vstd::set_lib::lemma_len_subset(t.to_set(), vstd::set_lib::set_int_range(0, n));
    t.unique_seq_to_set();
}

/// An order of distinct nodes that is as long as the graph places every node.
pub proof fn lemma_full_order_covers(order: Seq<usize>, n: int, v: int)
    requires
        distinct(order),
        order.len() == n,
        forall|k: int| 0 <= k < order.len() ==> #[trigger] order[k] < n,
        0 <= v < n,
    ensures
        order.contains(v as usize),
{
    if !order.contains(v as usize) {
        let shifted = order.map_values(|w: usize| if w > v { (w - 1) as usize } else { w });
        assert forall|i: int, j: int| 0 <= i < j < shifted.len() implies #[trigger] shifted[i] != #[trigger] shifted[j] by {
            assert(order[i] != order[j]);
            assert(order[i] != v as usize);
            assert(order[j] != v as usize);
        }
        assert forall|k: int| 0 <= k < shifted.len() implies #[trigger] shifted[k] < n - 1 by {
            assert(order[k] != v as usize);
        }
        lemma_distinct_count(shifted, n - 1);
    }
}

/// When the least-first order is stuck before placing every node, no order
/// at all places every node.
pub proof fn lemma_stuck_is_final(preds: Seq<Seq<usize>>, order: Seq<usize>)
    requires
        valid_order(preds, order),
        stuck(preds, order),
        order.len() < preds.len(),
    ensures
        !completable(preds),
{
    if completable(preds) {
        let full = choose|full: Seq<usize>| full.len() == preds.len() && #[trigger] valid_order(preds, full);
        // Some node is missing from `order`; the full order places it.
        assert(exists|m: int| 0 <= m < full.len() && !order.contains(#[trigger] full[m])) by {
            if forall|m: int| 0 <= m < full.len() ==> order.contains(#[trigger] full[m]) {
                lemma_injection_bound(full, order);
            }
        }
        let missing = choose|m: int| 0 <= m < full.len() && !order.contains(#[trigger] full[m]);
        let first = lemma_first_missing(full, order, missing);
        let v = full[first];
        assert(ready(preds, full.subrange(0, first), v as int));
        assert forall|k: int| 0 <= k < preds[v as int].len() implies order.contains(
            #[trigger] preds[v as int][k],
        ) by {
            let p = preds[v as int][k];
            assert(full.subrange(0, first).contains(p));
            let j = choose|j: int| 0 <= j < first && full.subrange(0, first)[j] == p;
            assert(full[j] == p);
        }
        assert(ready(preds, order, v as int));
    }
}

/// Every element of a distinct sequence lies in `target`, so it is no longer.
pub proof fn lemma_injection_bound(s: Seq<usize>, target: Seq<usize>)
    requires
        distinct(s),
        forall|m: int| 0 <= m < s.len() ==> target.contains(#[trigger] s[m]),
    ensures
        s.len() <= target.len(),
{
    broadcast use vstd::seq_lib::seq_to_set_is_finite;
    assert(s.no_duplicates());
    s.unique_seq_to_set();
    assert(s.to_set().subset_of(target.to_set()));
    vstd::set_lib::lemma_len_subset(s.to_set(), target.to_set());
    target.lemma_cardinality_of_set();
}

proof fn lemma_first_missing(full: Seq<usize>, order: Seq<usize>, m: int) -> (first: int)
    requires
        0 <= m < full.len(),
        !order.contains(full[m]),
    ensures
        0 <= first <= m,
        !order.contains(full[first]),
        forall|j: int| 0 <= j < first ==> order.contains(#[trigger] full[j]),
    decreases m,
{
    if exists|j: int| 0 <= j < m && !order.contains(#[trigger] full[j]) {
        let j = choose|j: int| 0 <= j < m && !order.contains(#[trigger] full[j]);
        lemma_first_missing(full, order, j)
    } else {
        m
    }
}

/// Two least-first valid orders agree on their common length: at each step
/// both place the least node that is ready after the same prefix.
pub proof fn lemma_least_first_unique(preds: Seq<Seq<usize>>, a: Seq<usize>, b: Seq<usize>, k: int)
    requires
        valid_order(preds, a),
        valid_order(preds, b),
        least_first(preds, a),
        least_first(preds, b),
        0 <= k <= a.len(),
        k <= b.len(),
    ensures
        a.subrange(0, k) == b.subrange(0, k),
    decreases k,
{
    if k > 0 {
        lemma_least_first_unique(preds, a, b, k - 1);
        let p = a.subrange(0, k - 1);
        assert(b.subrange(0, k - 1) == p);
        let x = a[k - 1];
        let y = b[k - 1];
        assert(ready(preds, p, x as int));
        assert(ready(preds, b.subrange(0, k - 1), y as int));
        if x < y {
            assert(!p.contains(x)) by {
                if p.contains(x) {
                    let j = choose|j: int| 0 <= j < p.len() && p[j] == x;
                    assert(a[j] == a[k - 1]);
                }
            }
            assert(!ready(preds, b.subrange(0, k - 1), x as int));
        } else if y < x {
            assert(!b.subrange(0, k - 1).contains(y)) by {
                let q = b.subrange(0, k - 1);
                if q.contains(y) {
                    let j = choose|j: int| 0 <= j < q.len() && q[j] == y;
                    assert(b[j] == b[k - 1]);
                }
            }
            assert(!ready(preds, p, y as int));
        }
        assert(a.subrange(0, k) =~= p.push(x));
        assert(b.subrange(0, k) =~= b.subrange(0, k - 1).push(y));
    }
}

} // verus!
