//! Order queries: topological order with cycle reporting, and minimal-edge
//! shortest paths.

use vstd::prelude::*;

use crate::model::{CalleeRef, Graph};

verus! {

/// Outcome of a topological-order request: an ordering, or the offending
/// set of nodes that lie on a non-trivial cycle.
pub enum TopoResult {
    Ordered(Vec<usize>),
    CycleDetected(Vec<usize>),
}

/// Every resolved, non-self predecessor of `j` is already marked in `em`.
pub open spec fn preds_marked(g: Graph, em: Seq<bool>, j: int) -> bool {
    forall|k: int|
        0 <= k < g.edges@.len() ==> (((#[trigger] g.edges@[k]).callee matches CalleeRef::Resolved(c)
            && c as int == j && g.edges@[k].caller as int != j) ==> em[g.edges@[k].caller as int])
}

/// Element `vi` of the collection has a distinct predecessor that is also
/// in the collection.
pub open spec fn has_pred_in(g: Graph, s: Seq<usize>, vi: int) -> bool {
    exists|ui: int|
        0 <= ui < s.len() && (#[trigger] s[ui]) != s[vi] && g.edge_step(s[ui] as int, s[vi] as int)
}

/// Every distinct resolved predecessor of each ordered node stands earlier in
/// the order.
pub open spec fn order_sound(g: Graph, order: Seq<usize>) -> bool {
    forall|i: int, k: int|
        0 <= i < order.len() && 0 <= k < g.edges@.len() && ((#[trigger] g.edges@[k]).callee
            matches CalleeRef::Resolved(c) && c as int == (#[trigger] order[i]) as int
            && g.edges@[k].caller as int != c as int) ==> exists|i2: int|
            0 <= i2 < i && order[i2] == g.edges@[k].caller
}

fn preds_marked_exec(g: &Graph, em: &Vec<bool>, j: usize) -> (r: bool)
    requires
        g.wf(),
        em@.len() == g.n(),
        (j as int) < g.n(),
    ensures
        r == preds_marked(*g, em@, j as int),
{
    let mut k: usize = 0;
    while k < g.edges.len()
        invariant
            g.wf(),
            em@.len() == g.n(),
            (j as int) < g.n(),
            k <= g.edges@.len(),
            forall|k2: int|
                0 <= k2 < k ==> (((#[trigger] g.edges@[k2]).callee matches CalleeRef::Resolved(c)
                    && c as int == j as int && g.edges@[k2].caller as int != j as int)
                    ==> em@[g.edges@[k2].caller as int]),
        decreases g.edges@.len() - k,
    {
        let e = &g.edges[k];
        match e.callee {
            CalleeRef::Resolved(c) => {
                proof {
                    assert(crate::model::edge_wf(g.edges@[k as int], g.n()));
                }
                if c == j && e.caller != j {
                    if !em[e.caller] {
                        proof {
                            assert(g.edges@[k as int].callee matches CalleeRef::Resolved(c2)
                                && c2 as int == j as int && g.edges@[k as int].caller as int
                                != j as int && !em@[g.edges@[k as int].caller as int]);
                        }
                        return false;
                    }
                }
            },
            _ => {},
        }
        k = k + 1;
    }
    true
}

proof fn lemma_count_false_all(s: Seq<bool>)
    requires
        forall|j: int| 0 <= j < s.len() ==> !s[j],
    ensures
        crate::reach::count_false(s) == s.len(),
    decreases s.len(),
{
    if s.len() > 0 {
        lemma_count_false_all(s.drop_last());
    }
}

proof fn lemma_count_false_nonzero(s: Seq<bool>)
    requires
        crate::reach::count_false(s) > 0,
    ensures
        exists|j: int| 0 <= j < s.len() && !s[j],
    decreases s.len(),
{
    if s.len() > 0 {
        if s.last() {
            lemma_count_false_nonzero(s.drop_last());
            let j = choose|j: int| 0 <= j < s.drop_last().len() && !s.drop_last()[j];
            assert(!s[j]);
        } else {
            assert(!s[s.len() - 1]);
        }
    }
}

/// A sound order without duplicates places every caller before each of its
/// distinct resolved callees.
proof fn lemma_order_respects(g: Graph, order: Seq<usize>)
    requires
        g.wf(),
        forall|i: int| 0 <= i < order.len() ==> (#[trigger] order[i] as int) < g.n(),
        forall|i1: int, i2: int| 0 <= i1 < i2 < order.len() ==> order[i1] != order[i2],
        order_sound(g, order),
    ensures
        forall|i1: int, i2: int|
            0 <= i1 < order.len() && 0 <= i2 < order.len() && g.edge_step(
                order[i1] as int,
                order[i2] as int,
            ) && order[i1] != order[i2] ==> i1 < i2,
{
    assert forall|i1: int, i2: int|
        0 <= i1 < order.len() && 0 <= i2 < order.len() && g.edge_step(
            order[i1] as int,
            order[i2] as int,
        ) && order[i1] != order[i2] implies i1 < i2 by {
        let k = choose|k: int|
            0 <= k < g.edges@.len() && (#[trigger] g.edges@[k]).caller as int == order[i1] as int
                && (g.edges@[k].callee matches CalleeRef::Resolved(c) && c as int
                == order[i2] as int);
        assert(order[i2] == order[i2]);
        let ip = choose|ip: int| 0 <= ip < i2 && #[trigger] order[ip] == g.edges@[k].caller;
        if ip != i1 {
            if ip < i1 {
                assert(order[ip] != order[i1]);
            } else {
                assert(order[i1] != order[ip]);
            }
            assert(false);
        }
    }
}

/// Emitting a node whose predecessors are all already ordered keeps the
/// order sound.
proof fn lemma_emit_step(g: Graph, order0: Seq<usize>, em0: Seq<bool>, j: usize)
    requires
        g.wf(),
        em0.len() == g.n(),
        (j as int) < g.n(),
        preds_marked(g, em0, j as int),
        forall|v: int|
            0 <= v < g.n() && #[trigger] em0[v] ==> exists|i: int|
                0 <= i < order0.len() && #[trigger] order0[i] as int == v,
        order_sound(g, order0),
    ensures
        order_sound(g, order0.push(j)),
{
    let order = order0.push(j);
    assert forall|i: int, k: int|
        0 <= i < order.len() && 0 <= k < g.edges@.len() && ((#[trigger] g.edges@[k]).callee
            matches CalleeRef::Resolved(c) && c as int == (#[trigger] order[i]) as int
            && g.edges@[k].caller as int != c as int) implies exists|i2: int|
        0 <= i2 < i && order[i2] == g.edges@[k].caller by {
        let u = g.edges@[k].caller;
        assert(crate::model::edge_wf(g.edges@[k], g.n()));
        if i < order0.len() {
            assert(order0[i] == order[i]);
            let i2 = choose|i2: int| 0 <= i2 < i && #[trigger] order0[i2] == u;
            assert(order[i2] == u);
        } else {
            assert(order[i] == j);
            assert(em0[u as int]);
            let i2 = choose|i2: int|
                0 <= i2 < order0.len() && #[trigger] order0[i2] as int == u as int;
            assert(order[i2] == u);
        }
    }
}

/// An unmarked node has a position in any collection that covers all
/// unmarked nodes.
proof fn lemma_member_index(em: Seq<bool>, stuck: Seq<usize>, u: int)
    requires
        0 <= u < em.len(),
        !em[u],
        forall|w: int|
            0 <= w < em.len() && !em[w] ==> exists|i: int|
                0 <= i < stuck.len() && (#[trigger] stuck[i]) as int == w,
    ensures
        exists|i: int| 0 <= i < stuck.len() && (#[trigger] stuck[i]) as int == u,
{
}

/// Total of a distance table; the termination measure of relaxation.
pub open spec fn sum_vals(s: Seq<usize>) -> nat
    decreases s.len(),
{
    if s.len() == 0 {
        0
    } else {
        sum_vals(s.drop_last()) + s.last() as nat
    }
}

proof fn lemma_sum_update(s: Seq<usize>, j: int, v: usize)
    requires
        0 <= j < s.len(),
        v < s[j],
    ensures
        sum_vals(s.update(j, v)) < sum_vals(s),
    decreases s.len(),
{
    let t = s.update(j, v);
    if j == s.len() - 1 {
        assert(t.drop_last() =~= s.drop_last());
    } else {
        assert(t.drop_last() =~= s.drop_last().update(j, v));
        assert(t.last() == s.last());
        lemma_sum_update(s.drop_last(), j, v);
    }
}

/// Some walk of exactly `d` edges leads from `a` to `v`.
pub open spec fn has_path_of(g: Graph, a: int, v: int, d: int) -> bool {
    exists|p: Seq<int>|
        #[trigger] g.valid_path(p) && p[0] == a && p[p.len() - 1] == v && p.len() == d + 1
}

/// The distance table admits no further relaxation along any resolved edge.
pub open spec fn dist_stable(g: Graph, dist: Seq<usize>) -> bool {
    forall|k: int|
        0 <= k < g.edges@.len() ==> {
            let e = #[trigger] g.edges@[k];
            e.callee matches CalleeRef::Resolved(v) ==> ((dist[e.caller as int] as int)
                != usize::MAX as int ==> (dist[v as int] as int) <= (dist[e.caller as int] as int)
                + 1)
        }
}

/// Every finite table entry is witnessed by a walk of exactly that length.
pub open spec fn dist_sound(g: Graph, dist: Seq<usize>, a: int) -> bool {
    forall|v: int|
        0 <= v < g.n() && ((#[trigger] dist[v]) as int) != usize::MAX as int ==> has_path_of(
            g,
            a,
            v,
            dist[v] as int,
        )
}

/// A witnessed walk extends along one more resolved edge.
proof fn lemma_path_extend(g: Graph, a: int, u: int, v: int, d: int)
    requires
        has_path_of(g, a, u, d),
        g.edge_step(u, v),
        0 <= v < g.n(),
        d >= 0,
    ensures
        has_path_of(g, a, v, d + 1),
{
    let p = choose|p: Seq<int>|
        #[trigger] g.valid_path(p) && p[0] == a && p[p.len() - 1] == u && p.len() == d + 1;
    let q = p.push(v);
    assert forall|i: int| 0 <= i < q.len() implies 0 <= #[trigger] q[i] < g.n() by {
        if i < p.len() {
            assert(q[i] == p[i]);
        }
    }
    assert forall|i: int| 0 <= i < q.len() - 1 implies g.edge_step(#[trigger] q[i], q[i + 1]) by {
        if i < p.len() - 1 {
            assert(q[i] == p[i] && q[i + 1] == p[i + 1]);
        } else {
            assert(q[i] == p[p.len() - 1] && q[i + 1] == v);
        }
    }
    assert(g.valid_path(q) && q[0] == a && q[q.len() - 1] == v && q.len() == d + 2);
}

/// More than `n` values drawn from `[0, n)` repeat somewhere.
proof fn lemma_pigeonhole(p: Seq<int>, n: int)
    requires
        forall|i: int| 0 <= i < p.len() ==> 0 <= #[trigger] p[i] < n,
        p.len() > n,
        n >= 0,
    ensures
        exists|i: int, j: int| 0 <= i < j < p.len() && #[trigger] p[i] == #[trigger] p[j],
{
    if !(exists|i: int, j: int| 0 <= i < j < p.len() && #[trigger] p[i] == #[trigger] p[j]) {
        assert forall|i: int, j: int|
            0 <= i < p.len() && 0 <= j < p.len() && i != j implies p[i] != p[j] by {
            if p[i] == p[j] {
                if i < j {
                    assert(0 <= i < j < p.len() && p[i] == p[j]);
                } else {
                    assert(0 <= j < i < p.len() && p[j] == p[i]);
                }
            }
        }
        assert(p.no_duplicates());
        p.unique_seq_to_set();
        vstd::set_lib::lemma_int_range(0, n);
        assert forall|x: int| p.to_set().contains(x) implies vstd::set_lib::set_int_range(
            0,
            n,
        ).contains(x) by {
            let i = choose|i: int| 0 <= i < p.len() && p[i] == x;
            assert(0 <= x < n);
        }
        assert(p.to_set().subset_of(vstd::set_lib::set_int_range(0, n)));
        vstd::set_lib::lemma_len_subset(p.to_set(), vstd::set_lib::set_int_range(0, n));
        assert(false);
    }
}

/// Any walk admits a walk with the same endpoints, no longer, and of at most
/// `n` vertices: looping sections can be cut out.
proof fn lemma_short_witness(g: Graph, p: Seq<int>)
    requires
        g.wf(),
        g.valid_path(p),
    ensures
        exists|q: Seq<int>|
            #[trigger] g.valid_path(q) && q[0] == p[0] && q[q.len() - 1] == p[p.len() - 1]
                && q.len() <= p.len() && q.len() <= g.n(),
    decreases p.len(),
{
    let n = g.n();
    if p.len() <= n {
        assert(g.valid_path(p) && p[0] == p[0] && p[p.len() - 1] == p[p.len() - 1] && p.len()
            <= p.len() && p.len() <= n);
    } else {
        lemma_pigeonhole(p, n);
        let (i, j) = choose|i: int, j: int| 0 <= i < j < p.len() && #[trigger] p[i] == #[trigger] p[j];
        let q0 = p.subrange(0, i) + p.subrange(j, p.len() as int);
        assert(q0.len() == i + p.len() - j);
        assert forall|t: int| 0 <= t < q0.len() implies 0 <= #[trigger] q0[t] < n by {
            if t < i {
                assert(q0[t] == p[t]);
            } else {
                assert(q0[t] == p[j + t - i]);
            }
        }
        assert forall|t: int| 0 <= t < q0.len() - 1 implies g.edge_step(
            #[trigger] q0[t],
            q0[t + 1],
        ) by {
            if t < i - 1 {
                assert(q0[t] == p[t] && q0[t + 1] == p[t + 1]);
            } else if t == i - 1 {
                assert(q0[t] == p[t] && q0[t + 1] == p[j]);
                assert(p[j] == p[i]);
                assert(g.edge_step(p[t], p[t + 1]));
            } else {
                assert(q0[t] == p[j + t - i] && q0[t + 1] == p[j + t - i + 1]);
            }
        }
        assert(q0.len() >= 1);
        assert(g.valid_path(q0));
        assert(q0[0] == p[0]) by {
            if i == 0 {
                assert(q0[0] == p[j]);
            } else {
                assert(q0[0] == p[0]);
            }
        }
        assert(q0[q0.len() - 1] == p[p.len() - 1]);
        assert(q0.len() < p.len());
        lemma_short_witness(g, q0);
        let q = choose|q: Seq<int>|
            #[trigger] g.valid_path(q) && q[0] == q0[0] && q[q.len() - 1] == q0[q0.len() - 1]
                && q.len() <= q0.len() && q.len() <= n;
        assert(g.valid_path(q) && q[0] == p[0] && q[q.len() - 1] == p[p.len() - 1] && q.len()
            <= p.len() && q.len() <= n);
    }
}

/// Along a stable table rooted at `a`, every walk bounds the distance of its
/// endpoint.
proof fn lemma_dist_bound(g: Graph, dist: Seq<usize>, a: int, q: Seq<int>)
    requires
        g.wf(),
        dist.len() == g.n(),
        0 <= a < g.n(),
        dist[a] == 0,
        dist_stable(g, dist),
        g.valid_path(q),
        q[0] == a,
    ensures
        (dist[q[q.len() - 1]] as int) <= q.len() - 1,
    decreases q.len(),
{
    if q.len() > 1 {
        let q2 = q.drop_last();
        assert forall|t: int| 0 <= t < q2.len() - 1 implies g.edge_step(
            #[trigger] q2[t],
            q2[t + 1],
        ) by {
            assert(q2[t] == q[t] && q2[t + 1] == q[t + 1]);
        }
        assert(g.valid_path(q2) && q2[0] == a);
        lemma_dist_bound(g, dist, a, q2);
        let u0 = q[q.len() - 2];
        let last = q[q.len() - 1];
        if (dist[u0] as int) == usize::MAX as int {
            // then the walk itself is astronomically long and bounds nothing
            assert((usize::MAX as int) <= q.len() - 2);
            assert((dist[last] as int) <= usize::MAX as int);
        } else {
            assert(g.edge_step(u0, last));
            let k = choose|k: int|
                0 <= k < g.edges@.len() && (#[trigger] g.edges@[k]).caller as int == u0
                    && (g.edges@[k].callee matches CalleeRef::Resolved(v) && v as int == last);
            assert((dist[last] as int) <= (dist[u0] as int) + 1);
        }
    }
}

/// A node at finite positive distance has a predecessor exactly one step
/// closer to the root.
proof fn lemma_pred_exists(g: Graph, dist: Seq<usize>, a: int, cur: int)
    requires
        g.wf(),
        dist.len() == g.n(),
        0 <= a < g.n(),
        dist[a] == 0,
        dist_stable(g, dist),
        dist_sound(g, dist, a),
        0 <= cur < g.n(),
        (dist[cur] as int) != usize::MAX as int,
        (dist[cur] as int) >= 1,
    ensures
        exists|k: int|
            0 <= k < g.edges@.len() && ((#[trigger] g.edges@[k]).callee
                matches CalleeRef::Resolved(v) && v as int == cur
                && (dist[g.edges@[k].caller as int] as int) + 1 == dist[cur] as int),
{
    assert(has_path_of(g, a, cur, dist[cur] as int));
    let p = choose|p: Seq<int>|
        #[trigger] g.valid_path(p) && p[0] == a && p[p.len() - 1] == cur && p.len() == (
        dist[cur] as int) + 1;
    let u0 = p[p.len() - 2];
    let p2 = p.drop_last();
    assert forall|t: int| 0 <= t < p2.len() - 1 implies g.edge_step(#[trigger] p2[t], p2[t + 1]) by {
        assert(p2[t] == p[t] && p2[t + 1] == p[t + 1]);
    }
    assert(g.valid_path(p2) && p2[0] == a && p2[p2.len() - 1] == u0);
    lemma_dist_bound(g, dist, a, p2);
    assert((dist[u0] as int) <= (dist[cur] as int) - 1);
    assert((dist[u0] as int) != usize::MAX as int);
    assert(g.edge_step(u0, cur));
    let k = choose|k: int|
        0 <= k < g.edges@.len() && (#[trigger] g.edges@[k]).caller as int == u0 && (
        g.edges@[k].callee matches CalleeRef::Resolved(v) && v as int == cur);
    assert((dist[cur] as int) <= (dist[u0] as int) + 1);
    assert((dist[g.edges@[k].caller as int] as int) + 1 == dist[cur] as int);
    assert(g.edges@[k].callee matches CalleeRef::Resolved(v) && v as int == cur);
}

/// A backward walk of any requested length through a collection in which
/// every element has an in-collection predecessor: consecutive entries are
/// joined by resolved edges pointing toward the front.
proof fn build_walk(g: Graph, s: Seq<usize>, m: nat) -> (w: Seq<int>)
    requires
        g.wf(),
        s.len() >= 1,
        forall|i: int| 0 <= i < s.len() ==> ((#[trigger] s[i]) as int) < g.n(),
        forall|vi: int| 0 <= vi < s.len() ==> #[trigger] has_pred_in(g, s, vi),
    ensures
        w.len() == m + 1,
        forall|t: int|
            0 <= t < w.len() ==> exists|i: int|
                0 <= i < s.len() && ((#[trigger] s[i]) as int) == #[trigger] w[t],
        forall|t: int| 0 <= t < w.len() - 1 ==> g.edge_step(#[trigger] w[t + 1], w[t]),
    decreases m,
{
    if m == 0 {
        let w = seq![s[0] as int];
        assert(0 <= 0 < s.len() && (s[0] as int) == w[0]);
        w
    } else {
        let w0 = build_walk(g, s, (m - 1) as nat);
        let last = w0[w0.len() - 1];
        let vi = choose|i: int| 0 <= i < s.len() && ((#[trigger] s[i]) as int) == last;
        assert(has_pred_in(g, s, vi));
        let ui = choose|ui: int|
            0 <= ui < s.len() && (#[trigger] s[ui]) != s[vi] && g.edge_step(
                s[ui] as int,
                s[vi] as int,
            );
        let w = w0.push(s[ui] as int);
        assert forall|t: int| 0 <= t < w.len() implies exists|i: int|
            0 <= i < s.len() && ((#[trigger] s[i]) as int) == #[trigger] w[t] by {
            if t < w0.len() {
                assert(w[t] == w0[t]);
            } else {
                assert(w[t] == s[ui] as int);
            }
        }
        assert forall|t: int| 0 <= t < w.len() - 1 implies g.edge_step(#[trigger] w[t + 1], w[t]) by {
            if t < w0.len() - 1 {
                assert(w[t] == w0[t] && w[t + 1] == w0[t + 1]);
            } else {
                assert(w[t] == last && w[t + 1] == s[ui] as int);
            }
        }
        w
    }
}

/// The node set reported with a `CycleDetected` outcome really holds a
/// cycle: some reported node transitively calls itself.
pub proof fn lemma_stuck_set_has_cycle(g: Graph, s: Seq<usize>)
    requires
        g.wf(),
        s.len() >= 1,
        forall|i: int| 0 <= i < s.len() ==> ((#[trigger] s[i]) as int) < g.n(),
        forall|vi: int| 0 <= vi < s.len() ==> #[trigger] has_pred_in(g, s, vi),
    ensures
        exists|i: int| 0 <= i < s.len() && g.reaches((#[trigger] s[i]) as int, s[i] as int),
{
    let n = g.n();
    let w = build_walk(g, s, n as nat);
    assert forall|t: int| 0 <= t < w.len() implies 0 <= #[trigger] w[t] < n by {
        let i = choose|i: int| 0 <= i < s.len() && ((#[trigger] s[i]) as int) == w[t];
        assert((s[i] as int) < n);
    }
    lemma_pigeonhole(w, n);
    let (i, j) = choose|i: int, j: int| 0 <= i < j < w.len() && #[trigger] w[i] == #[trigger] w[j];
    // the reversed stretch between the two occurrences is a forward cycle
    let p = Seq::new((j - i + 1) as nat, |r: int| w[j - r]);
    assert forall|r: int| 0 <= r < p.len() implies 0 <= #[trigger] p[r] < n by {
        assert(p[r] == w[j - r]);
    }
    assert forall|r: int| 0 <= r < p.len() - 1 implies g.edge_step(#[trigger] p[r], p[r + 1]) by {
        assert(p[r] == w[j - r] && p[r + 1] == w[j - r - 1]);
        assert(g.edge_step(w[(j - r - 1) + 1], w[j - r - 1]));
    }
    assert(g.valid_path(p));
    assert(p[0] == w[j] && p[p.len() - 1] == w[i]);
    assert(p.len() >= 2);
    assert(g.reaches(w[j], w[j]));
    let si = choose|si: int| 0 <= si < s.len() && ((#[trigger] s[si]) as int) == w[j];
    assert(g.reaches(s[si] as int, s[si] as int));
}

impl Graph {
    /// Collects the nodes left unordered when no candidate remains, and
    /// shows that each keeps a distinct unordered predecessor: the sign of a
    /// cycle among them.
    #[verifier::rlimit(100)]
    fn collect_stuck(&self, em: &Vec<bool>) -> (stuck: Vec<usize>)
        requires
            self.wf(),
            em@.len() == self.n(),
            exists|w: int| 0 <= w < self.n() && !(#[trigger] em@[w]),
            forall|j2: int|
                0 <= j2 < self.n() && !em@[j2] ==> !preds_marked(*self, em@, j2),
        ensures
            stuck@.len() >= 1,
            forall|i: int| 0 <= i < stuck@.len() ==> (#[trigger] stuck@[i] as int) < self.n(),
            forall|i1: int, i2: int|
                0 <= i1 < i2 < stuck@.len() ==> #[trigger] stuck@[i1] != #[trigger] stuck@[i2],
            forall|vi: int| 0 <= vi < stuck@.len() ==> #[trigger] has_pred_in(*self, stuck@, vi),
    {
        let ghost n = self.n();
        let nn = self.nodes.len();
        let mut stuck: Vec<usize> = Vec::new();
        let mut v: usize = 0;
        while v < nn
            invariant
                self.wf(),
                n == self.n(),
                em@.len() == n,
                nn as int == n,
                v <= nn,
                forall|i: int|
                    0 <= i < stuck@.len() ==> (#[trigger] stuck@[i] as int) < v
                        && !em@[stuck@[i] as int],
                forall|w: int|
                    0 <= w < v && !em@[w] ==> exists|i: int|
                        0 <= i < stuck@.len() && #[trigger] stuck@[i] as int == w,
                forall|i1: int, i2: int|
                    0 <= i1 < i2 < stuck@.len() ==> #[trigger] stuck@[i1] < #[trigger] stuck@[i2],
            decreases n - v,
        {
            let ghost s0 = stuck@;
            if !em[v] {
                stuck.push(v);
            }
            proof {
                assert forall|w: int| 0 <= w < v as int + 1 && !em@[w] implies exists|i: int|
                    0 <= i < stuck@.len() && #[trigger] stuck@[i] as int == w by {
                    if w < v as int {
                        let i = choose|i: int| 0 <= i < s0.len() && #[trigger] s0[i] as int == w;
                        assert(stuck@[i] as int == w);
                    } else {
                        assert(!em@[v as int]);
                        assert(stuck@[s0.len() as int] as int == w);
                    }
                }
            }
            v = v + 1;
        }
        proof {
            let w0 = choose|w: int| 0 <= w < n && !(#[trigger] em@[w]);
            assert(exists|i: int| 0 <= i < stuck@.len() && #[trigger] stuck@[i] as int == w0);
        }
        // for each collected node, find an unordered distinct predecessor
        // (one exists, else the node could have been ordered)
        let mut upreds: Vec<usize> = Vec::new();
        let mut vi: usize = 0;
        while vi < stuck.len()
            invariant
                self.wf(),
                n == self.n(),
                em@.len() == n,
                forall|j2: int|
                    0 <= j2 < n && !em@[j2] ==> !preds_marked(*self, em@, j2),
                forall|i: int|
                    0 <= i < stuck@.len() ==> (#[trigger] stuck@[i] as int) < n
                        && !em@[stuck@[i] as int],
                vi <= stuck@.len(),
                upreds@.len() == vi,
                forall|t: int|
                    0 <= t < vi ==> {
                        let u = #[trigger] upreds@[t];
                        &&& (u as int) < n
                        &&& !em@[u as int]
                        &&& u != stuck@[t]
                        &&& self.edge_step(u as int, stuck@[t] as int)
                    },
            decreases stuck@.len() - vi,
        {
            let w = stuck[vi];
            let mut k: usize = 0;
            let mut pred: usize = 0;
            let mut found = false;
            while k < self.edges.len() && !found
                invariant
                    self.wf(),
                    n == self.n(),
                    em@.len() == n,
                    (w as int) < n,
                    k <= self.edges@.len(),
                    !found ==> forall|k2: int|
                        0 <= k2 < k ==> !((#[trigger] self.edges@[k2]).callee
                            matches CalleeRef::Resolved(c) && c as int == w as int
                            && self.edges@[k2].caller as int != w as int
                            && !em@[self.edges@[k2].caller as int]),
                    found ==> (pred as int) < n && !em@[pred as int] && pred != w
                        && self.edge_step(pred as int, w as int),
                decreases self.edges@.len() - k + if found {
                    0int
                } else {
                    1int
                },
            {
                let e = &self.edges[k];
                match e.callee {
                    CalleeRef::Resolved(c) => {
                        proof {
                            assert(crate::model::edge_wf(self.edges@[k as int], n));
                        }
                        if c == w && e.caller != w && !em[e.caller] {
                            pred = e.caller;
                            found = true;
                            proof {
                                assert(self.edge_step(pred as int, w as int)) by {
                                    assert(0 <= k < self.edges@.len()
                                        && self.edges@[k as int].caller == pred && (
                                    self.edges@[k as int].callee matches CalleeRef::Resolved(c2)
                                        && c2 == w));
                                }
                            }
                        } else {
                            k = k + 1;
                        }
                    },
                    CalleeRef::External(_) => {
                        k = k + 1;
                    },
                    CalleeRef::Unresolved(_) => {
                        k = k + 1;
                    },
                }
            }
            if !found {
                proof {
                    assert(!em@[w as int]);
                    assert(!preds_marked(*self, em@, w as int));
                    let k2 = choose|k2: int|
                        0 <= k2 < self.edges@.len() && ((#[trigger] self.edges@[k2]).callee
                            matches CalleeRef::Resolved(c) && c as int == w as int
                            && self.edges@[k2].caller as int != w as int
                            && !em@[self.edges@[k2].caller as int]);
                    assert(false);
                }
            }
            upreds.push(pred);
            vi = vi + 1;
        }
        // each predecessor is itself unordered, so it has a position in the
        // collection
        let mut pidx: Vec<usize> = Vec::new();
        let mut vi2: usize = 0;
        while vi2 < stuck.len()
            invariant
                self.wf(),
                n == self.n(),
                em@.len() == n,
                forall|i: int| 0 <= i < stuck@.len() ==> ((#[trigger] stuck@[i]) as int) < n,
                forall|i1: int, i2: int|
                    0 <= i1 < i2 < stuck@.len() ==> #[trigger] stuck@[i1] < #[trigger] stuck@[i2],
                forall|w2: int|
                    0 <= w2 < n && !em@[w2] ==> exists|i: int|
                        0 <= i < stuck@.len() && #[trigger] stuck@[i] as int == w2,
                upreds@.len() == stuck@.len(),
                forall|t: int|
                    0 <= t < stuck@.len() ==> {
                        let u = #[trigger] upreds@[t];
                        &&& (u as int) < n
                        &&& !em@[u as int]
                        &&& u != stuck@[t]
                        &&& self.edge_step(u as int, stuck@[t] as int)
                    },
                vi2 <= stuck@.len(),
                pidx@.len() == vi2,
                forall|t: int|
                    0 <= t < vi2 ==> ((#[trigger] pidx@[t]) as int) < stuck@.len()
                        && stuck@[pidx@[t] as int] == upreds@[t],
            decreases stuck@.len() - vi2,
        {
            let u = upreds[vi2];
            let mut i: usize = 0;
            let mut found = false;
            let mut at: usize = 0;
            while i < stuck.len() && !found
                invariant
                    i <= stuck@.len(),
                    !found ==> forall|t: int| 0 <= t < i ==> (#[trigger] stuck@[t]) != u,
                    found ==> (at as int) < stuck@.len() && stuck@[at as int] == u,
                decreases stuck@.len() - i + if found {
                    0int
                } else {
                    1int
                },
            {
                if stuck[i] == u {
                    at = i;
                    found = true;
                } else {
                    i = i + 1;
                }
            }
            if !found {
                proof {
                    lemma_member_index(em@, stuck@, u as int);
                    let t = choose|t: int|
                        0 <= t < stuck@.len() && (#[trigger] stuck@[t]) as int == u as int;
                    assert(false);
                }
            }
            pidx.push(at);
            vi2 = vi2 + 1;
        }
        proof {
            assert forall|vi3: int| 0 <= vi3 < stuck@.len() implies #[trigger] has_pred_in(
                *self,
                stuck@,
                vi3,
            ) by {
                let ui = pidx@[vi3] as int;
                assert(stuck@[ui] == upreds@[vi3]);
                assert(stuck@[ui] != stuck@[vi3]);
                assert(self.edge_step(stuck@[ui] as int, stuck@[vi3] as int));
            }
            assert forall|i1: int, i2: int|
                0 <= i1 < i2 < stuck@.len() implies #[trigger] stuck@[i1]
                != #[trigger] stuck@[i2] by {
                assert(stuck@[i1] < stuck@[i2]);
            }
        }
        stuck
    }

    /// `topologicalOrder`: a permutation of the node indices that places
    /// every caller before each of its distinct resolved callees, when the
    /// graph has no non-trivial cycle; otherwise the non-empty offending
    /// set — the unorderable nodes that each reach themselves through at
    /// least one resolved edge.
    #[verifier::rlimit(100)]
    pub fn topological_order(&self) -> (r: TopoResult)
        requires
            self.wf(),
        ensures
            match r {
                TopoResult::Ordered(o) => {
                    &&& o@.len() == self.n()
                    &&& forall|i: int| 0 <= i < o@.len() ==> (#[trigger] o@[i] as int) < self.n()
                    &&& forall|i1: int, i2: int|
                        0 <= i1 < i2 < o@.len() ==> #[trigger] o@[i1] != #[trigger] o@[i2]
                    &&& forall|i1: int, i2: int|
                        0 <= i1 < o@.len() && 0 <= i2 < o@.len() && self.edge_step(
                            o@[i1] as int,
                            o@[i2] as int,
                        ) && o@[i1] != o@[i2] ==> i1 < i2
                },
                TopoResult::CycleDetected(s) => {
                    &&& s@.len() >= 1
                    &&& forall|i: int| 0 <= i < s@.len() ==> (#[trigger] s@[i] as int) < self.n()
                    &&& forall|i1: int, i2: int|
                        0 <= i1 < i2 < s@.len() ==> #[trigger] s@[i1] != #[trigger] s@[i2]
                    &&& forall|i: int|
                        0 <= i < s@.len() ==> self.reaches(
                            (#[trigger] s@[i]) as int,
                            s@[i] as int,
                        )
                },
            },
    {
        let ghost n = self.n();
        let nn = self.nodes.len();
        let mut em = crate::reach::false_mask(nn);
        let mut order: Vec<usize> = Vec::new();
        proof {
            lemma_count_false_all(em@);
        }
        loop
            invariant
                self.wf(),
                n == self.n(),
                em@.len() == n,
                nn as int == n,
                order@.len() <= n,
                crate::reach::count_false(em@) == n - order@.len(),
                forall|i: int|
                    0 <= i < order@.len() ==> (#[trigger] order@[i] as int) < n && em@[order@[i] as int],
                forall|v: int|
                    0 <= v < n && #[trigger] em@[v] ==> exists|i: int|
                        0 <= i < order@.len() && #[trigger] order@[i] as int == v,
                forall|i1: int, i2: int|
                    0 <= i1 < i2 < order@.len() ==> #[trigger] order@[i1] != #[trigger] order@[i2],
                order_sound(*self, order@),
            decreases n - order@.len(),
        {
            if order.len() == nn {
                proof {
                    lemma_order_respects(*self, order@);
                }
                return TopoResult::Ordered(order);
            }
            // look for an unmarked node whose predecessors are all marked
            let mut j: usize = 0;
            let mut found = false;
            while j < nn && !found
                invariant
                    self.wf(),
                    n == self.n(),
                    em@.len() == n,
                    nn as int == n,
                    j <= nn,
                    !found ==> forall|j2: int|
                        0 <= j2 < j && !em@[j2] ==> !preds_marked(*self, em@, j2),
                    found ==> (j as int) < n && !em@[j as int] && preds_marked(*self, em@, j as int),
                decreases n - j + if found {
                    0int
                } else {
                    1int
                },
            {
                if !em[j] && preds_marked_exec(self, &em, j) {
                    found = true;
                } else {
                    j = j + 1;
                }
            }
            if !found {
                proof {
                    assert(crate::reach::count_false(em@) > 0);
                    lemma_count_false_nonzero(em@);
                }
                let stuck = self.collect_stuck(&em);
                proof {
                    lemma_stuck_set_has_cycle(*self, stuck@);
                }
                // report only the nodes that lie on a cycle: they are the
                // offending set; everything else was merely downstream
                let mut cyc: Vec<usize> = Vec::new();
                let mut ci: usize = 0;
                while ci < stuck.len()
                    invariant
                        self.wf(),
                        n == self.n(),
                        ci <= stuck@.len(),
                        forall|i: int|
                            0 <= i < stuck@.len() ==> (#[trigger] stuck@[i] as int) < n,
                        forall|i1: int, i2: int|
                            0 <= i1 < i2 < stuck@.len() ==> #[trigger] stuck@[i1]
                                != #[trigger] stuck@[i2],
                        forall|i: int|
                            0 <= i < cyc@.len() ==> (#[trigger] cyc@[i] as int) < n
                                && self.reaches(cyc@[i] as int, cyc@[i] as int),
                        forall|i1: int, i2: int|
                            0 <= i1 < i2 < cyc@.len() ==> #[trigger] cyc@[i1]
                                != #[trigger] cyc@[i2],
                        forall|i: int|
                            0 <= i < cyc@.len() ==> exists|si: int|
                                0 <= si < ci && #[trigger] cyc@[i] == stuck@[si],
                        forall|si: int|
                            0 <= si < ci && self.reaches(
                                (#[trigger] stuck@[si]) as int,
                                stuck@[si] as int,
                            ) ==> exists|i: int| 0 <= i < cyc@.len() && #[trigger] cyc@[i] == stuck@[si],
                    decreases stuck@.len() - ci,
                {
                    let v = stuck[ci];
                    let ghost cyc0 = cyc@;
                    let mask = self.reachable_from(v);
                    if mask[v] {
                        proof {
                            assert forall|i1: int, i2: int|
                                0 <= i1 < i2 < cyc0.len() + 1 implies #[trigger] cyc0.push(v)[i1]
                                != #[trigger] cyc0.push(v)[i2] by {
                                if i2 == cyc0.len() {
                                    let si = choose|si: int|
                                        0 <= si < ci && #[trigger] cyc0[i1] == stuck@[si];
                                    assert(stuck@[si] != stuck@[ci as int]);
                                }
                            }
                        }
                        cyc.push(v);
                    }
                    proof {
                        assert forall|si: int|
                            0 <= si < ci as int + 1 && self.reaches(
                                (#[trigger] stuck@[si]) as int,
                                stuck@[si] as int,
                            ) implies exists|i: int|
                            0 <= i < cyc@.len() && #[trigger] cyc@[i] == stuck@[si] by {
                            if si < ci as int {
                                let i = choose|i: int|
                                    0 <= i < cyc0.len() && #[trigger] cyc0[i] == stuck@[si];
                                assert(cyc@[i] == stuck@[si]);
                            } else {
                                assert(cyc@[cyc@.len() - 1] == v);
                            }
                        }
                        assert forall|i: int|
                            0 <= i < cyc@.len() implies exists|si: int|
                            0 <= si < ci as int + 1 && #[trigger] cyc@[i] == stuck@[si] by {
                            if i < cyc0.len() {
                                let si = choose|si: int|
                                    0 <= si < ci && #[trigger] cyc0[i] == stuck@[si];
                                assert(cyc@[i] == stuck@[si]);
                            } else {
                                assert(cyc@[i] == stuck@[ci as int]);
                            }
                        }
                    }
                    ci = ci + 1;
                }
                proof {
                    let si = choose|si: int|
                        0 <= si < stuck@.len() && self.reaches(
                            (#[trigger] stuck@[si]) as int,
                            stuck@[si] as int,
                        );
                    assert(exists|i: int|
                        0 <= i < cyc@.len() && #[trigger] cyc@[i] == stuck@[si]);
                    assert(cyc@.len() >= 1);
                }
                return TopoResult::CycleDetected(cyc);
            }
            proof {
                crate::reach::lemma_count_false_update(em@, j as int);
                lemma_emit_step(*self, order@, em@, j);
            }
            let ghost em0 = em@;
            let ghost order0 = order@;
            em.set(j, true);
            order.push(j);
            proof {
                assert forall|v: int| 0 <= v < n && #[trigger] em@[v] implies exists|i: int|
                    0 <= i < order@.len() && #[trigger] order@[i] as int == v by {
                    if v == j as int {
                        assert(order@[order0.len() as int] as int == v);
                    } else {
                        assert(em0[v]);
                        let i = choose|i: int|
                            0 <= i < order0.len() && #[trigger] order0[i] as int == v;
                        assert(order@[i] as int == v);
                    }
                }
            }
        }
    }
    /// Relaxes distances from `a` along resolved edges to a fixed point:
    /// every finite entry is a realizable walk length, and no edge can
    /// shorten any entry further.
    #[verifier::rlimit(100)]
    fn relax_distances(&self, a: usize) -> (dist: Vec<usize>)
        requires
            self.wf(),
            (a as int) < self.n(),
        ensures
            dist@.len() == self.n(),
            dist@[a as int] == 0,
            forall|v: int| 0 <= v < self.n() && #[trigger] dist@[v] == 0 ==> v == a as int,
            dist_sound(*self, dist@, a as int),
            dist_stable(*self, dist@),
    {
        let ghost n = self.n();
        let nn = self.nodes.len();
        let mut dist: Vec<usize> = Vec::new();
        while dist.len() < nn
            invariant
                dist@.len() <= nn,
                forall|v: int| 0 <= v < dist@.len() ==> #[trigger] dist@[v] == usize::MAX,
            decreases nn - dist@.len(),
        {
            dist.push(usize::MAX);
        }
        dist.set(a, 0);
        proof {
            assert(self.valid_path(seq![a as int]));
            assert(has_path_of(*self, a as int, a as int, 0));
        }
        let mut changed = true;
        while changed
            invariant
                self.wf(),
                n == self.n(),
                (a as int) < n,
                dist@.len() == n,
                dist@[a as int] == 0,
                forall|v: int| 0 <= v < n && #[trigger] dist@[v] == 0 ==> v == a as int,
                dist_sound(*self, dist@, a as int),
                !changed ==> dist_stable(*self, dist@),
            decreases sum_vals(dist@) + if changed {
                1nat
            } else {
                0nat
            },
        {
            let ghost d0 = dist@;
            changed = false;
            let mut k: usize = 0;
            while k < self.edges.len()
                invariant
                    self.wf(),
                    n == self.n(),
                    (a as int) < n,
                    dist@.len() == n,
                    k <= self.edges@.len(),
                    dist@[a as int] == 0,
                    forall|v: int| 0 <= v < n && #[trigger] dist@[v] == 0 ==> v == a as int,
                    dist_sound(*self, dist@, a as int),
                    changed ==> sum_vals(dist@) < sum_vals(d0),
                    !changed ==> dist@ == d0,
                    !changed ==> forall|k2: int|
                        0 <= k2 < k ==> {
                            let e = #[trigger] self.edges@[k2];
                            e.callee matches CalleeRef::Resolved(v) ==> ((
                            dist@[e.caller as int] as int) != usize::MAX as int ==> (
                            dist@[v as int] as int) <= (dist@[e.caller as int] as int) + 1)
                        },
                decreases self.edges@.len() - k,
            {
                let e = &self.edges[k];
                match e.callee {
                    CalleeRef::Resolved(v) => {
                        proof {
                            assert(crate::model::edge_wf(self.edges@[k as int], n));
                        }
                        let du = dist[e.caller];
                        if du != usize::MAX && dist[v] > du + 1 {
                            proof {
                                lemma_sum_update(dist@, v as int, (du + 1) as usize);
                                assert(self.edge_step(e.caller as int, v as int)) by {
                                    assert(0 <= k < self.edges@.len()
                                        && self.edges@[k as int].caller == e.caller && (
                                    self.edges@[k as int].callee matches CalleeRef::Resolved(v2)
                                        && v2 == v));
                                }
                                lemma_path_extend(
                                    *self,
                                    a as int,
                                    e.caller as int,
                                    v as int,
                                    du as int,
                                );
                            }
                            let ghost before = dist@;
                            dist.set(v, du + 1);
                            changed = true;
                            proof {
                                assert(sum_vals(dist@) < sum_vals(before));
                                assert forall|w: int|
                                    0 <= w < n && ((#[trigger] dist@[w]) as int)
                                        != usize::MAX as int implies has_path_of(
                                    *self,
                                    a as int,
                                    w,
                                    dist@[w] as int,
                                ) by {
                                    if w != v as int {
                                        assert(dist@[w] == before[w]);
                                    }
                                }
                            }
                        }
                    },
                    CalleeRef::External(_) => {},
                    CalleeRef::Unresolved(_) => {},
                }
                k = k + 1;
            }
        }
        dist
    }

    /// Finds a predecessor of `cur` exactly one step closer to the root.
    fn find_pred(&self, dist: &Vec<usize>, a: usize, cur: usize) -> (pred: usize)
        requires
            self.wf(),
            (a as int) < self.n(),
            dist@.len() == self.n(),
            dist@[a as int] == 0,
            dist_sound(*self, dist@, a as int),
            dist_stable(*self, dist@),
            (cur as int) < self.n(),
            dist@[cur as int] != usize::MAX,
            (dist@[cur as int] as int) >= 1,
        ensures
            (pred as int) < self.n(),
            self.edge_step(pred as int, cur as int),
            (dist@[pred as int] as int) + 1 == dist@[cur as int] as int,
    {
        let ghost n = self.n();
        proof {
            lemma_pred_exists(*self, dist@, a as int, cur as int);
        }
        let mut k: usize = 0;
        while k < self.edges.len()
            invariant
                self.wf(),
                n == self.n(),
                dist@.len() == n,
                (cur as int) < n,
                dist@[cur as int] != usize::MAX,
                k <= self.edges@.len(),
                exists|k2: int|
                    0 <= k2 < self.edges@.len() && ((#[trigger] self.edges@[k2]).callee
                        matches CalleeRef::Resolved(v) && v as int == cur as int && (
                    dist@[self.edges@[k2].caller as int] as int) + 1 == dist@[cur as int] as int),
                forall|k2: int|
                    0 <= k2 < k ==> !((#[trigger] self.edges@[k2]).callee
                        matches CalleeRef::Resolved(v) && v as int == cur as int && (
                    dist@[self.edges@[k2].caller as int] as int) + 1 == dist@[cur as int] as int),
            decreases self.edges@.len() - k,
        {
            let e = &self.edges[k];
            match e.callee {
                CalleeRef::Resolved(v) => {
                    proof {
                        assert(crate::model::edge_wf(self.edges@[k as int], n));
                    }
                    if v == cur && dist[e.caller] != usize::MAX && dist[e.caller] + 1 == dist[cur] {
                        let pred = e.caller;
                        proof {
                            assert(self.edge_step(pred as int, cur as int)) by {
                                assert(0 <= k < self.edges@.len() && self.edges@[k as int].caller
                                    == pred && (self.edges@[k as int].callee
                                    matches CalleeRef::Resolved(v2) && v2 == cur));
                            }
                        }
                        return pred;
                    }
                },
                CalleeRef::External(_) => {},
                CalleeRef::Unresolved(_) => {},
            }
            k = k + 1;
        }
        proof {
            let k2 = choose|k2: int|
                0 <= k2 < self.edges@.len() && ((#[trigger] self.edges@[k2]).callee
                    matches CalleeRef::Resolved(v) && v as int == cur as int && (
                dist@[self.edges@[k2].caller as int] as int) + 1 == dist@[cur as int] as int);
            assert(false);
        }
        0
    }

    /// Walks back from `b` along exact predecessors and reverses the walk
    /// into a path of exactly the recorded length.
    fn reconstruct_path(&self, dist: &Vec<usize>, a: usize, b: usize) -> (path: Vec<usize>)
        requires
            self.wf(),
            (a as int) < self.n(),
            (b as int) < self.n(),
            dist@.len() == self.n(),
            dist@[a as int] == 0,
            forall|v: int| 0 <= v < self.n() && #[trigger] dist@[v] == 0 ==> v == a as int,
            dist_sound(*self, dist@, a as int),
            dist_stable(*self, dist@),
            dist@[b as int] != usize::MAX,
        ensures
            path@.len() >= 1,
            path@[0] == a,
            path@[path@.len() - 1] == b,
            self.valid_path(path@.map_values(|x: usize| x as int)),
            path@.len() == (dist@[b as int] as int) + 1,
    {
        let ghost n = self.n();
        let mut rev: Vec<usize> = Vec::new();
        rev.push(b);
        let mut cur = b;
        while dist[cur] != 0
            invariant
                self.wf(),
                n == self.n(),
                (a as int) < n,
                (b as int) < n,
                dist@.len() == n,
                dist@[a as int] == 0,
                forall|v: int| 0 <= v < n && #[trigger] dist@[v] == 0 ==> v == a as int,
                dist_sound(*self, dist@, a as int),
                dist_stable(*self, dist@),
                (cur as int) < n,
                dist@[cur as int] != usize::MAX,
                dist@[b as int] != usize::MAX,
                rev@.len() >= 1,
                rev@[0] == b,
                rev@[rev@.len() - 1] == cur,
                forall|t: int| 0 <= t < rev@.len() ==> ((#[trigger] rev@[t]) as int) < n,
                forall|t: int|
                    0 <= t < rev@.len() - 1 ==> self.edge_step(
                        (#[trigger] rev@[t + 1]) as int,
                        rev@[t] as int,
                    ),
                (dist@[cur as int] as int) + rev@.len() == (dist@[b as int] as int) + 1,
            decreases dist@[cur as int],
        {
            let pred = self.find_pred(dist, a, cur);
            rev.push(pred);
            cur = pred;
        }
        proof {
            assert(cur == a);
        }
        let m = rev.len();
        let mut path: Vec<usize> = Vec::new();
        let mut i: usize = 0;
        while i < m
            invariant
                m == rev@.len(),
                i <= m,
                path@.len() == i,
                forall|t: int| 0 <= t < i ==> #[trigger] path@[t] == rev@[m - 1 - t],
            decreases m - i,
        {
            path.push(rev[m - 1 - i]);
            i = i + 1;
        }
        proof {
            let pv = path@.map_values(|x: usize| x as int);
            assert(pv.len() == m);
            assert(path@[0] == rev@[m - 1]);
            assert(path@[m - 1] == rev@[0]);
            assert forall|t: int| 0 <= t < pv.len() implies 0 <= #[trigger] pv[t] < n by {
                assert(pv[t] == path@[t] as int);
                assert(path@[t] == rev@[m - 1 - t]);
            }
            assert forall|t: int| 0 <= t < pv.len() - 1 implies self.edge_step(
                #[trigger] pv[t],
                pv[t + 1],
            ) by {
                assert(path@[t] == rev@[m - 1 - t]);
                assert(path@[t + 1] == rev@[m - 1 - (t + 1)]);
                assert(self.edge_step(rev@[(m - 2 - t) + 1] as int, rev@[m - 2 - t] as int));
            }
            assert(self.valid_path(pv));
        }
        path
    }

    /// `shortestPath`: a minimal-edge path from `a` to `b` along resolved
    /// edges, or `None` exactly when no path exists. The result starts at
    /// `a`, ends at `b`, walks only resolved edges, and no valid path
    /// between the two is shorter.
    pub fn shortest_path(&self, a: usize, b: usize) -> (r: Option<Vec<usize>>)
        requires
            self.wf(),
            (a as int) < self.n(),
            (b as int) < self.n(),
        ensures
            r matches Some(p) ==> {
                &&& p@.len() >= 1
                &&& p@[0] == a
                &&& p@[p@.len() - 1] == b
                &&& self.valid_path(p@.map_values(|x: usize| x as int))
                &&& forall|q: Seq<int>|
                    #[trigger] self.valid_path(q) && q[0] == a as int && q[q.len() - 1] == b as int
                        ==> p@.len() <= q.len()
            },
            r is None ==> a != b && !self.reaches(a as int, b as int),
            (a == b || self.reaches(a as int, b as int)) ==> r is Some,
    {
        let ghost n = self.n();
        if a == b {
            let mut p: Vec<usize> = Vec::new();
            p.push(a);
            proof {
                let pv = p@.map_values(|x: usize| x as int);
                assert(pv.len() == 1 && pv[0] == a as int);
                assert(self.valid_path(pv));
            }
            return Some(p);
        }
        let dist = self.relax_distances(a);
        if dist[b] == usize::MAX {
            proof {
                if self.reaches(a as int, b as int) {
                    let p = choose|p: Seq<int>|
                        #[trigger] self.valid_path(p) && p.len() >= 2 && p[0] == a as int && p[p.len()
                            - 1] == b as int;
                    lemma_short_witness(*self, p);
                    let q = choose|q: Seq<int>|
                        #[trigger] self.valid_path(q) && q[0] == p[0] && q[q.len() - 1] == p[p.len()
                            - 1] && q.len() <= p.len() && q.len() <= n;
                    lemma_dist_bound(*self, dist@, a as int, q);
                    assert((dist@[b as int] as int) <= n - 1);
                    assert(false);
                }
            }
            return None;
        }
        let path = self.reconstruct_path(&dist, a, b);
        proof {
            assert forall|q: Seq<int>|
                #[trigger] self.valid_path(q) && q[0] == a as int && q[q.len() - 1]
                    == b as int implies path@.len() <= q.len() by {
                lemma_dist_bound(*self, dist@, a as int, q);
            }
            let pv = path@.map_values(|x: usize| x as int);
            assert(pv.len() >= 2);
            assert(self.reaches(a as int, b as int)) by {
                assert(pv[0] == a as int && pv[pv.len() - 1] == b as int);
            }
        }
        Some(path)
    }
}

} // verus!
