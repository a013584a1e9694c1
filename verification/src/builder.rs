//! The graph builder: aggregates resolved calls into counted edges, computes
//! entry points and assembles the graph.

use vstd::prelude::*;

use crate::model::{CallEdge, CalleeRef, FunctionNode, Graph, Visibility, edge_wf, names_unique,
    spec_callee_eq};

verus! {

/// Two edges aggregate together: same caller, same callee, same closure flag.
pub open spec fn edge_key_eq(a: CallEdge, b: CallEdge) -> bool {
    a.caller == b.caller && a.via_closure == b.via_closure && spec_callee_eq(a.callee, b.callee)
}

/// Index of the first edge with the same key, or -1.
pub open spec fn find_key(es: Seq<CallEdge>, e: CallEdge) -> int
    decreases es.len(),
{
    if es.len() == 0 {
        -1
    } else if edge_key_eq(es[0], e) {
        0
    } else {
        let r = find_key(es.drop_first(), e);
        if r < 0 {
            -1
        } else {
            r + 1
        }
    }
}

proof fn lemma_find_key(es: Seq<CallEdge>, e: CallEdge)
    ensures
        find_key(es, e) == -1 ==> forall|k: int| 0 <= k < es.len() ==> !edge_key_eq(
            #[trigger] es[k],
            e,
        ),
        find_key(es, e) >= 0 ==> {
            let r = find_key(es, e);
            &&& 0 <= r < es.len()
            &&& edge_key_eq(es[r], e)
            &&& forall|k: int| 0 <= k < r ==> !edge_key_eq(#[trigger] es[k], e)
        },
    decreases es.len(),
{
    if es.len() > 0 {
        lemma_find_key(es.drop_first(), e);
        assert forall|k: int| 1 <= k < es.len() implies es.drop_first()[k - 1] == #[trigger] es[k] by {}
    }
}

/// One step of the aggregation fold: count the call on its existing edge, or
/// append a fresh edge with one occurrence.
pub open spec fn agg_step(es: Seq<CallEdge>, c: CallEdge) -> Seq<CallEdge> {
    let r = find_key(es, c);
    if r >= 0 {
        es.update(
            r,
            CallEdge {
                caller: es[r].caller,
                callee: es[r].callee,
                line: es[r].line,
                via_closure: es[r].via_closure,
                occurrences: (es[r].occurrences + 1) as usize,
            },
        )
    } else {
        es.push(
            CallEdge {
                caller: c.caller,
                callee: c.callee,
                line: c.line,
                via_closure: c.via_closure,
                occurrences: 1,
            },
        )
    }
}

/// Aggregation of a call sequence, in call order.
pub open spec fn aggregate(cs: Seq<CallEdge>) -> Seq<CallEdge>
    decreases cs.len(),
{
    if cs.len() == 0 {
        Seq::empty()
    } else {
        agg_step(aggregate(cs.drop_last()), cs.last())
    }
}

/// Exact comparison of two callee references.
pub fn callee_eq(a: &CalleeRef, b: &CalleeRef) -> (r: bool)
    ensures
        r == spec_callee_eq(*a, *b),
{
    match (a, b) {
        (CalleeRef::Resolved(i), CalleeRef::Resolved(j)) => *i == *j,
        (CalleeRef::External(x), CalleeRef::External(y)) => crate::scan::vec_eq(x, y),
        (CalleeRef::Unresolved(x), CalleeRef::Unresolved(y)) => crate::scan::vec_eq(x, y),
        _ => false,
    }
}

/// Aggregates the unit edges produced by the resolver, preserving their
/// structural soundness for a graph of `n` nodes.
pub fn aggregate_calls(calls: Vec<CallEdge>, Ghost(n): Ghost<int>) -> (es: Vec<CallEdge>)
    requires
        forall|i: int| 0 <= i < calls@.len() ==> edge_wf(#[trigger] calls@[i], n),
    ensures
        es@ == aggregate(calls@),
        forall|k: int| 0 <= k < es@.len() ==> edge_wf(#[trigger] es@[k], n),
{
    let ghost calls_seq = calls@;
    let mut calls = calls;
    let mut es: Vec<CallEdge> = Vec::new();
    let mut i: usize = 0;
    while i < calls.len()
        invariant
            calls@.len() == calls_seq.len(),
            forall|k: int| i <= k < calls_seq.len() ==> #[trigger] calls@[k] == calls_seq[k],
            i <= calls_seq.len(),
            forall|k: int| 0 <= k < calls_seq.len() ==> edge_wf(#[trigger] calls_seq[k], n),
            es@ == aggregate(calls_seq.take(i as int)),
            forall|k: int| 0 <= k < es@.len() ==> edge_wf(#[trigger] es@[k], n),
            forall|k: int| 0 <= k < es@.len() ==> (#[trigger] es@[k]).occurrences <= i,
        decreases calls_seq.len() - i,
    {
        let mut c = CallEdge {
            caller: 0,
            callee: CalleeRef::Resolved(0),
            line: 0,
            via_closure: false,
            occurrences: 0,
        };
        calls.set_and_swap(i, &mut c);
        proof {
            assert(c == calls_seq[i as int]);
        }
        let ghost es0 = es@;
        // find the first edge with the same key
        let mut r: usize = 0;
        let mut found = false;
        while r < es.len() && !found
            invariant
                es@ == es0,
                r <= es@.len(),
                !found ==> forall|k: int| 0 <= k < r ==> !edge_key_eq(#[trigger] es@[k], c),
                found ==> r < es@.len() && edge_key_eq(es@[r as int], c) && forall|k: int|
                    0 <= k < r ==> !edge_key_eq(#[trigger] es@[k], c),
            decreases es@.len() - r + if found {
                0int
            } else {
                1int
            },
        {
            if es[r].caller == c.caller && es[r].via_closure == c.via_closure && callee_eq(
                &es[r].callee,
                &c.callee,
            ) {
                found = true;
            } else {
                r = r + 1;
            }
        }
        proof {
            lemma_find_key(es@, c);
            if found {
                assert(find_key(es@, c) == r as int);
            } else {
                assert(find_key(es@, c) == -1);
            }
        }
        if found {
            let mut old_e = CallEdge {
                caller: 0,
                callee: CalleeRef::Resolved(0),
                line: 0,
                via_closure: false,
                occurrences: 0,
            };
            es.set_and_swap(r, &mut old_e);
            let occ = old_e.occurrences;
            let new_e = CallEdge {
                caller: old_e.caller,
                callee: old_e.callee,
                line: old_e.line,
                via_closure: old_e.via_closure,
                occurrences: occ + 1,
            };
            es.set(r, new_e);
            proof {
                assert(es@ =~= agg_step(es0, c));
            }
        } else {
            let new_e = CallEdge {
                caller: c.caller,
                callee: c.callee,
                line: c.line,
                via_closure: c.via_closure,
                occurrences: 1,
            };
            es.push(new_e);
            proof {
                assert(es@ =~= agg_step(es0, c));
            }
        }
        proof {
            assert(calls_seq.take(i as int + 1).drop_last() =~= calls_seq.take(i as int));
            assert(calls_seq.take(i as int + 1).last() == calls_seq[i as int]);
        }
        i = i + 1;
    }
    proof {
        assert(calls_seq.take(calls_seq.len() as int) =~= calls_seq);
    }
    es
}

/// Decides whether node `j` is an entry point.
fn is_entry_exec(nodes: &Vec<FunctionNode>, edges: &Vec<CallEdge>, j: usize) -> (r: bool)
    requires
        (j as int) < nodes@.len(),
    ensures
        r == crate::model::is_entry_of(nodes@, edges@, j as int),
{
    if matches!(nodes[j].visibility, Visibility::Public) {
        return true;
    }
    if crate::scan::vec_eq_str(&nodes[j].name, "main") {
        return true;
    }
    let mut k: usize = 0;
    while k < edges.len()
        invariant
            (j as int) < nodes@.len(),
            k <= edges@.len(),
            nodes@[j as int].visibility != Visibility::Public,
            nodes@[j as int].name@ != "main"@,
            forall|k2: int|
                0 <= k2 < k ==> !((#[trigger] edges@[k2]).callee matches CalleeRef::Resolved(c)
                    && c as int == j as int),
        decreases edges@.len() - k,
    {
        match &edges[k].callee {
            CalleeRef::Resolved(c) => {
                if *c == j {
                    proof {
                        assert(edges@[k as int].callee matches CalleeRef::Resolved(c2)
                            && c2 as int == j as int);
                    }
                    return false;
                }
            },
            _ => {},
        }
        k = k + 1;
    }
    true
}

/// Assembles the graph: aggregated edges, then the entry list in increasing
/// node order.
pub fn build_graph(nodes: Vec<FunctionNode>, calls: Vec<CallEdge>) -> (g: Graph)
    requires
        names_unique(nodes@),
        forall|i: int| 0 <= i < calls@.len() ==> edge_wf(#[trigger] calls@[i], nodes@.len() as int),
        forall|i: int, d: int|
            0 <= i < calls@.len() && 0 <= d < nodes@.len() ==> match (#[trigger] calls@[i]).callee {
                CalleeRef::Resolved(_) => true,
                CalleeRef::External(nm) => (#[trigger] nodes@[d].name@) != nm@,
                CalleeRef::Unresolved(nm) => nodes@[d].name@ != nm@,
            },
    ensures
        g.wf(),
        g.entries_exact(),
        g.nodes@ == nodes@,
        g.edges@ == aggregate(calls@),
{
    let ghost n = nodes@.len() as int;
    let ghost nodes_seq = nodes@;
    let ghost calls_seq = calls@;
    let edges = aggregate_calls(calls, Ghost(n));
    proof {
        // aggregation introduces no new callee value: every edge's callee is
        // key-equal to some input call's callee
        lemma_aggregate_callees(calls_seq, n);
    }
    let g0 = Graph { nodes, edges, entries: Vec::new() };
    proof {
        assert forall|k: int, i: int|
            0 <= k < g0.edges@.len() && 0 <= i < g0.n() implies match (#[trigger] g0.edges@[k]).callee {
            CalleeRef::Resolved(_) => true,
            CalleeRef::External(nm) => (#[trigger] g0.nodes@[i].name@) != nm@,
            CalleeRef::Unresolved(nm) => g0.nodes@[i].name@ != nm@,
        } by {
            let c = choose|c: int|
                0 <= c < calls_seq.len() && spec_callee_eq(
                    (#[trigger] calls_seq[c]).callee,
                    g0.edges@[k].callee,
                );
            match g0.edges@[k].callee {
                CalleeRef::Resolved(_) => {},
                CalleeRef::External(nm) => {
                    assert(calls_seq[c].callee matches CalleeRef::External(nm2) && nm2@ == nm@);
                },
                CalleeRef::Unresolved(nm) => {
                    assert(calls_seq[c].callee matches CalleeRef::Unresolved(nm2) && nm2@ == nm@);
                },
            }
        }
    }
    let mut entries: Vec<usize> = Vec::new();
    let mut j: usize = 0;
    while j < g0.nodes.len()
        invariant
            j <= g0.n(),
            forall|i: int| 0 <= i < entries@.len() ==> (#[trigger] entries@[i] as int) < j,
            forall|i1: int, i2: int|
                0 <= i1 < i2 < entries@.len() ==> #[trigger] entries@[i1] < #[trigger] entries@[i2],
            forall|v: int|
                0 <= v < j ==> ((exists|i: int|
                    0 <= i < entries@.len() && #[trigger] entries@[i] as int == v)
                    <==> #[trigger] g0.is_entry(v)),
        decreases g0.n() - j,
    {
        let ghost e0 = entries@;
        let ent = is_entry_exec(&g0.nodes, &g0.edges, j);
        if ent {
            entries.push(j);
        }
        proof {
            assert forall|v: int| 0 <= v < j as int + 1 implies ((exists|i: int|
                0 <= i < entries@.len() && #[trigger] entries@[i] as int == v)
                <==> #[trigger] g0.is_entry(v)) by {
                if v < j as int {
                    if exists|i: int| 0 <= i < e0.len() && #[trigger] e0[i] as int == v {
                        let i = choose|i: int| 0 <= i < e0.len() && #[trigger] e0[i] as int == v;
                        assert(entries@[i] as int == v);
                    }
                    if exists|i: int| 0 <= i < entries@.len() && #[trigger] entries@[i] as int
                        == v {
                        let i = choose|i: int|
                            0 <= i < entries@.len() && #[trigger] entries@[i] as int == v;
                        if i < e0.len() {
                            assert(e0[i] as int == v);
                        } else {
                            assert(entries@[i] as int == j as int);
                        }
                    }
                } else {
                    if ent {
                        assert(entries@[e0.len() as int] as int == j as int);
                    } else {
                        if exists|i: int| 0 <= i < entries@.len() && #[trigger] entries@[i] as int
                            == v {
                            let i = choose|i: int|
                                0 <= i < entries@.len() && #[trigger] entries@[i] as int == v;
                            assert((e0[i] as int) < (j as int));
                        }
                    }
                }
            }
        }
        j = j + 1;
    }
    let ghost final_entries = entries@;
    let ghost nn = g0.n();
    proof {
        assert(j as int == nn);
    }
    let g = Graph { nodes: g0.nodes, edges: g0.edges, entries };
    proof {
        assert(g.entries@ == final_entries);
        assert(g.nodes@ == nodes_seq);
        assert forall|v: int| 0 <= v < g.n() implies ((exists|i: int|
            0 <= i < g.entries@.len() && #[trigger] g.entries@[i] as int == v) <==> #[trigger] g.is_entry(
            v,
        )) by {
            assert(g.is_entry(v) == g0.is_entry(v));
            assert((exists|i: int|
                0 <= i < final_entries.len() && #[trigger] final_entries[i] as int == v)
                <==> g0.is_entry(v));
        }
    }
    g
}

/// Every aggregated edge's callee is key-equal to the callee of some call in
/// the input, so the aggregation invents no callee.
proof fn lemma_aggregate_callees(cs: Seq<CallEdge>, n: int)
    ensures
        forall|k: int|
            0 <= k < aggregate(cs).len() ==> exists|c: int|
                0 <= c < cs.len() && spec_callee_eq(
                    (#[trigger] cs[c]).callee,
                    #[trigger] aggregate(cs)[k].callee,
                ),
    decreases cs.len(),
{
    if cs.len() > 0 {
        lemma_aggregate_callees(cs.drop_last(), n);
        let prev = aggregate(cs.drop_last());
        let c = cs.last();
        let r = find_key(prev, c);
        assert forall|k: int| 0 <= k < aggregate(cs).len() implies exists|ci: int|
            0 <= ci < cs.len() && spec_callee_eq(
                (#[trigger] cs[ci]).callee,
                #[trigger] aggregate(cs)[k].callee,
            ) by {
            if r >= 0 {
                lemma_find_key(prev, c);
                if k == r {
                    let ci = choose|ci: int|
                        0 <= ci < cs.drop_last().len() && spec_callee_eq(
                            (#[trigger] cs.drop_last()[ci]).callee,
                            prev[k].callee,
                        );
                    assert(cs[ci] == cs.drop_last()[ci]);
                    assert(spec_callee_eq(cs[ci].callee, aggregate(cs)[k].callee));
                } else {
                    assert(aggregate(cs)[k] == prev[k]);
                    let ci = choose|ci: int|
                        0 <= ci < cs.drop_last().len() && spec_callee_eq(
                            (#[trigger] cs.drop_last()[ci]).callee,
                            prev[k].callee,
                        );
                    assert(cs[ci] == cs.drop_last()[ci]);
                }
            } else {
                if k < prev.len() {
                    assert(aggregate(cs)[k] == prev[k]);
                    let ci = choose|ci: int|
                        0 <= ci < cs.drop_last().len() && spec_callee_eq(
                            (#[trigger] cs.drop_last()[ci]).callee,
                            prev[k].callee,
                        );
                    assert(cs[ci] == cs.drop_last()[ci]);
                } else {
                    assert(aggregate(cs)[k].callee == c.callee);
                    assert(spec_callee_eq(cs[cs.len() - 1].callee, aggregate(cs)[k].callee)) by {
                        lemma_callee_eq_refl(c.callee);
                    }
                }
            }
        }
    }
}

proof fn lemma_callee_eq_refl(c: CalleeRef)
    ensures
        spec_callee_eq(c, c),
{
}

} // verus!
