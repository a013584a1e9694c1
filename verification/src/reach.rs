//! Reachability over resolved edges: path lemmas, a saturation pass, the
//! `reachableFrom` query, the verified set and recursion flags.

use vstd::prelude::*;

use crate::model::{CalleeRef, Graph};

verus! {

/// Count of `false` entries in a mask; the termination measure of saturation.
pub open spec fn count_false(s: Seq<bool>) -> nat
    decreases s.len(),
{
    if s.len() == 0 {
        0
    } else {
        count_false(s.drop_last()) + if s.last() {
            0nat
        } else {
            1nat
        }
    }
}

pub proof fn lemma_count_false_update(s: Seq<bool>, j: int)
    requires
        0 <= j < s.len(),
        !s[j],
    ensures
        count_false(s.update(j, true)) + 1 == count_false(s),
    decreases s.len(),
{
    let t = s.update(j, true);
    if j == s.len() - 1 {
        assert(t.drop_last() =~= s.drop_last());
        assert(t.last());
        assert(!s.last());
    } else {
        assert(t.drop_last() =~= s.drop_last().update(j, true));
        assert(t.last() == s.last());
        lemma_count_false_update(s.drop_last(), j);
    }
}

/// A single resolved edge is a path of length one.
pub proof fn lemma_step_reaches(g: Graph, a: int, b: int)
    requires
        0 <= a < g.n(),
        0 <= b < g.n(),
        g.edge_step(a, b),
    ensures
        g.reaches(a, b),
{
    let p = seq![a, b];
    assert(p[0] == a && p[p.len() - 1] == b);
    assert forall|i: int| 0 <= i < p.len() - 1 implies g.edge_step(#[trigger] p[i], p[i + 1]) by {
        assert(p[0] == a && p[1] == b);
    }
    assert(g.valid_path(p));
}

/// Reachability extends along one more resolved edge.
pub proof fn lemma_reaches_extend(g: Graph, a: int, b: int, c: int)
    requires
        g.reaches(a, b),
        g.edge_step(b, c),
        0 <= c < g.n(),
    ensures
        g.reaches(a, c),
{
    let p = choose|p: Seq<int>|
        #[trigger] g.valid_path(p) && p.len() >= 2 && p[0] == a && p[p.len() - 1] == b;
    let q = p.push(c);
    assert forall|i: int| 0 <= i < q.len() implies 0 <= #[trigger] q[i] < g.n() by {
        if i < p.len() {
            assert(q[i] == p[i]);
        }
    }
    assert forall|i: int| 0 <= i < q.len() - 1 implies g.edge_step(#[trigger] q[i], q[i + 1]) by {
        if i < p.len() - 1 {
            assert(q[i] == p[i] && q[i + 1] == p[i + 1]);
        } else {
            assert(q[i] == p[p.len() - 1] && q[i + 1] == c);
        }
    }
    assert(g.valid_path(q) && q[0] == a && q[q.len() - 1] == c);
}

/// Reachability also extends backward along a first resolved edge.
pub proof fn lemma_reaches_prepend(g: Graph, a: int, b: int, c: int)
    requires
        g.edge_step(a, b),
        g.reaches(b, c),
        0 <= a < g.n(),
    ensures
        g.reaches(a, c),
{
    let p = choose|p: Seq<int>|
        #[trigger] g.valid_path(p) && p.len() >= 2 && p[0] == b && p[p.len() - 1] == c;
    let q = seq![a] + p;
    assert forall|i: int| 0 <= i < q.len() implies 0 <= #[trigger] q[i] < g.n() by {
        if i >= 1 {
            assert(q[i] == p[i - 1]);
        }
    }
    assert forall|i: int| 0 <= i < q.len() - 1 implies g.edge_step(#[trigger] q[i], q[i + 1]) by {
        if i == 0 {
            assert(q[0] == a && q[1] == p[0]);
        } else {
            assert(q[i] == p[i - 1] && q[i + 1] == p[i]);
        }
    }
    assert(q[q.len() - 1] == p[p.len() - 1]);
    assert(g.valid_path(q) && q[0] == a && q[q.len() - 1] == c);
}

/// A reachable node is a direct callee or reachable from a direct callee.
pub proof fn lemma_reaches_head(g: Graph, a: int, c: int)
    requires
        g.reaches(a, c),
    ensures
        g.edge_step(a, c) || exists|b: int|
            0 <= b < g.n() && #[trigger] g.edge_step(a, b) && g.reaches(b, c),
{
    let p = choose|p: Seq<int>|
        #[trigger] g.valid_path(p) && p.len() >= 2 && p[0] == a && p[p.len() - 1] == c;
    if p.len() == 2 {
        assert(g.edge_step(p[0], p[1]));
    } else {
        let q = p.subrange(1, p.len() as int);
        assert forall|i: int| 0 <= i < q.len() - 1 implies g.edge_step(#[trigger] q[i], q[i + 1]) by {
            assert(q[i] == p[i + 1] && q[i + 1] == p[i + 2]);
        }
        assert(g.valid_path(q) && q.len() >= 2 && q[0] == p[1] && q[q.len() - 1] == c);
        assert(g.edge_step(a, p[1]) && g.reaches(p[1], c));
    }
}

/// A mask closed under resolved edges swallows everything reachable from any
/// of its members.
pub proof fn lemma_closed_mask(g: Graph, m: Seq<bool>, p: Seq<int>)
    requires
        m.len() == g.n(),
        forall|a: int, b: int|
            0 <= a < g.n() && 0 <= b < g.n() && m[a] && #[trigger] g.edge_step(a, b) ==> m[b],
        g.valid_path(p),
        m[p[0]],
    ensures
        m[p[p.len() - 1]],
    decreases p.len(),
{
    if p.len() > 1 {
        let q = p.drop_last();
        assert forall|i: int| 0 <= i < q.len() - 1 implies g.edge_step(#[trigger] q[i], q[i + 1]) by {
            assert(q[i] == p[i] && q[i + 1] == p[i + 1]);
        }
        assert(g.valid_path(q) && q[0] == p[0]);
        lemma_closed_mask(g, m, q);
        assert(g.edge_step(p[p.len() - 2], p[p.len() - 1]));
    }
}

/// A mask of `n` entries, all clear.
pub fn false_mask(n: usize) -> (v: Vec<bool>)
    ensures
        v@.len() == n,
        forall|j: int| 0 <= j < n ==> !(#[trigger] v@[j]),
{
    let mut v: Vec<bool> = Vec::new();
    while v.len() < n
        invariant
            v@.len() <= n,
            forall|j: int| 0 <= j < v@.len() ==> !(#[trigger] v@[j]),
        decreases n - v@.len(),
    {
        v.push(false);
    }
    v
}

/// Extends `mask` with everything reachable from its set members, and with
/// nothing else.
pub fn saturate(g: &Graph, mask: &mut Vec<bool>)
    requires
        g.wf(),
        old(mask)@.len() == g.n(),
    ensures
        final(mask)@.len() == g.n(),
        forall|j: int|
            0 <= j < g.n() ==> (#[trigger] final(mask)@[j] <==> (old(mask)@[j] || exists|s: int|
                0 <= s < g.n() && #[trigger] old(mask)@[s] && g.reaches(s, j))),
{
    let ghost init = old(mask)@;
    let ghost n = g.n();
    let mut changed = true;
    while changed
        invariant
            g.wf(),
            n == g.n(),
            init.len() == n,
            mask@.len() == n,
            forall|j: int| 0 <= j < n && init[j] ==> #[trigger] mask@[j],
            forall|j: int|
                0 <= j < n && #[trigger] mask@[j] ==> (init[j] || exists|s: int|
                    0 <= s < n && #[trigger] init[s] && g.reaches(s, j)),
            !changed ==> forall|a: int, b: int|
                0 <= a < n && 0 <= b < n && mask@[a] && #[trigger] g.edge_step(a, b) ==> mask@[b],
        decreases count_false(mask@) + if changed {
            1nat
        } else {
            0nat
        },
    {
        let ghost m0 = mask@;
        changed = false;
        let mut k: usize = 0;
        while k < g.edges.len()
            invariant
                g.wf(),
                n == g.n(),
                init.len() == n,
                mask@.len() == n,
                k <= g.edges@.len(),
                forall|j: int| 0 <= j < n && init[j] ==> #[trigger] mask@[j],
                forall|j: int|
                    0 <= j < n && #[trigger] mask@[j] ==> (init[j] || exists|s: int|
                        0 <= s < n && #[trigger] init[s] && g.reaches(s, j)),
                changed ==> count_false(mask@) < count_false(m0),
                !changed ==> mask@ == m0,
                !changed ==> forall|k2: int|
                    0 <= k2 < k ==> match (#[trigger] g.edges@[k2]).callee {
                        CalleeRef::Resolved(c) => mask@[g.edges@[k2].caller as int]
                            ==> mask@[c as int],
                        _ => true,
                    },
            decreases g.edges@.len() - k,
        {
            let e = &g.edges[k];
            match e.callee {
                CalleeRef::Resolved(c) => {
                    assert(crate::model::edge_wf(g.edges@[k as int], n));
                    if mask[e.caller] && !mask[c] {
                        let ghost before = mask@;
                        proof {
                            lemma_count_false_update(mask@, c as int);
                            // the new member is itself reachable from a seed
                            // or is a seed's direct callee
                            assert(g.edge_step(e.caller as int, c as int)) by {
                                assert(0 <= k < g.edges@.len() && g.edges@[k as int].caller
                                    == e.caller && (g.edges@[k as int].callee
                                    matches CalleeRef::Resolved(j) && j == c));
                            }
                            if init[e.caller as int] {
                                lemma_step_reaches(*g, e.caller as int, c as int);
                            } else {
                                let s = choose|s: int|
                                    0 <= s < n && #[trigger] init[s] && g.reaches(
                                        s,
                                        e.caller as int,
                                    );
                                lemma_reaches_extend(*g, s, e.caller as int, c as int);
                            }
                        }
                        mask.set(c, true);
                        changed = true;
                        proof {
                            assert(count_false(mask@) < count_false(before));
                            assert(count_false(before) <= count_false(m0));
                        }
                    }
                },
                CalleeRef::External(_) => {},
                CalleeRef::Unresolved(_) => {},
            }
            k = k + 1;
        }
    }
    proof {
        assert forall|j: int|
            0 <= j < n && (init[j] || exists|s: int|
                0 <= s < n && #[trigger] init[s] && g.reaches(s, j)) implies #[trigger] mask@[j] by {
            if !init[j] {
                let s = choose|s: int| 0 <= s < n && #[trigger] init[s] && g.reaches(s, j);
                let p = choose|p: Seq<int>|
                    #[trigger] g.valid_path(p) && p.len() >= 2 && p[0] == s && p[p.len() - 1] == j;
                lemma_closed_mask(*g, mask@, p);
            }
        }
    }
}

impl Graph {
    /// `reachableFrom`: the set of nodes reachable from `start` along
    /// resolved edges, as a mask over node indices. Deterministic: the mask
    /// is pinned pointwise by `reaches`, so re-running it on the same graph
    /// yields the same set.
    pub fn reachable_from(&self, start: usize) -> (mask: Vec<bool>)
        requires
            self.wf(),
            (start as int) < self.n(),
        ensures
            mask@.len() == self.n(),
            forall|j: int| 0 <= j < self.n() ==> (#[trigger] mask@[j] <==> self.reaches(start as int, j)),
    {
        let ghost n = self.n();
        let mut mask = false_mask(self.nodes.len());
        // seed with the direct callees of start
        let mut k: usize = 0;
        while k < self.edges.len()
            invariant
                self.wf(),
                n == self.n(),
                mask@.len() == n,
                k <= self.edges@.len(),
                forall|j: int|
                    0 <= j < n ==> (#[trigger] mask@[j] <==> exists|k2: int|
                        0 <= k2 < k && (#[trigger] self.edges@[k2]).caller as int == start
                            && (self.edges@[k2].callee matches CalleeRef::Resolved(c) && c as int
                            == j)),
            decreases self.edges@.len() - k,
        {
            let e = &self.edges[k];
            match e.callee {
                CalleeRef::Resolved(c) => {
                    assert(crate::model::edge_wf(self.edges@[k as int], n));
                    if e.caller == start && !mask[c] {
                        mask.set(c, true);
                    }
                },
                CalleeRef::External(_) => {},
                CalleeRef::Unresolved(_) => {},
            }
            k = k + 1;
        }
        proof {
            assert forall|j: int| 0 <= j < n implies (#[trigger] mask@[j] <==> self.edge_step(
                start as int,
                j,
            )) by {}
        }
        let ghost seeded = mask@;
        saturate(self, &mut mask);
        proof {
            assert forall|j: int| 0 <= j < n implies (#[trigger] mask@[j] <==> self.reaches(
                start as int,
                j,
            )) by {
                if mask@[j] {
                    if seeded[j] {
                        lemma_step_reaches(*self, start as int, j);
                    } else {
                        let s = choose|s: int|
                            0 <= s < n && #[trigger] seeded[s] && self.reaches(s, j);
                        lemma_reaches_prepend(*self, start as int, s, j);
                    }
                }
                if self.reaches(start as int, j) {
                    lemma_reaches_head(*self, start as int, j);
                    if self.edge_step(start as int, j) {
                        assert(seeded[j]);
                    } else {
                        let b = choose|b: int|
                            0 <= b < n && #[trigger] self.edge_step(start as int, b)
                                && self.reaches(b, j);
                        assert(seeded[b]);
                    }
                }
            }
        }
        mask
    }

    /// The verified set under the forward-propagation rule: annotated nodes
    /// and everything they transitively call.
    pub fn verified_mask(&self) -> (mask: Vec<bool>)
        requires
            self.wf(),
        ensures
            mask@.len() == self.n(),
            forall|j: int| 0 <= j < self.n() ==> (#[trigger] mask@[j] <==> self.verified_reachable(j)),
    {
        let ghost n = self.n();
        let mut mask = false_mask(self.nodes.len());
        let mut j: usize = 0;
        while j < self.nodes.len()
            invariant
                self.wf(),
                n == self.n(),
                mask@.len() == n,
                j <= n,
                forall|i: int| 0 <= i < j ==> (#[trigger] mask@[i] <==> self.is_annotated(i)),
                forall|i: int| j <= i < n ==> !(#[trigger] mask@[i]),
            decreases n - j,
        {
            if crate::scan::has_verification_tag(&self.nodes[j].annotations) {
                mask.set(j, true);
            }
            j = j + 1;
        }
        let ghost seeds = mask@;
        saturate(self, &mut mask);
        proof {
            assert forall|i: int| 0 <= i < n implies (#[trigger] mask@[i]
                <==> self.verified_reachable(i)) by {
                if mask@[i] {
                    if !seeds[i] {
                        let s = choose|s: int|
                            0 <= s < n && #[trigger] seeds[s] && self.reaches(s, i);
                        assert(self.is_annotated(s) && self.reaches(s, i));
                    }
                }
                if self.verified_reachable(i) {
                    if self.is_annotated(i) {
                        assert(seeds[i]);
                    } else {
                        let s = choose|s: int|
                            0 <= s < n && #[trigger] self.is_annotated(s) && self.reaches(s, i);
                        assert(seeds[s]);
                    }
                }
            }
        }
        mask
    }

    /// Recursion flags: a node is recursive, directly or mutually, exactly
    /// when it reaches itself through at least one resolved edge.
    pub fn recursive_mask(&self) -> (mask: Vec<bool>)
        requires
            self.wf(),
        ensures
            mask@.len() == self.n(),
            forall|j: int| 0 <= j < self.n() ==> (#[trigger] mask@[j] <==> self.reaches(j, j)),
    {
        let ghost n = self.n();
        let mut mask: Vec<bool> = Vec::new();
        while mask.len() < self.nodes.len()
            invariant
                self.wf(),
                n == self.n(),
                mask@.len() <= n,
                forall|j: int| 0 <= j < mask@.len() ==> (#[trigger] mask@[j] <==> self.reaches(j, j)),
            decreases n - mask@.len(),
        {
            let j = mask.len();
            let from_j = self.reachable_from(j);
            mask.push(from_j[j]);
        }
        mask
    }
}

/// `reachableFrom` is a fixed point: any two masks that both satisfy its
/// contract on one graph snapshot and start node are equal.
pub proof fn lemma_reachable_fixed_point(g: Graph, start: int, m1: Seq<bool>, m2: Seq<bool>)
    requires
        m1.len() == g.n(),
        m2.len() == g.n(),
        forall|j: int| 0 <= j < g.n() ==> (#[trigger] m1[j] <==> g.reaches(start, j)),
        forall|j: int| 0 <= j < g.n() ==> (#[trigger] m2[j] <==> g.reaches(start, j)),
    ensures
        m1 == m2,
{
    assert(m1 =~= m2);
}

} // verus!
