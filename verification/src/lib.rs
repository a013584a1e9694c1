//! A static call-graph construction and query engine.
//!
//! The engine scans the text of one source unit, collects function
//! definitions, extracts named call sites, resolves them to definitions or
//! external symbols, and builds a directed multigraph that answers
//! reachability, shortest-path and topological-order queries and exports a
//! renderer-friendly record set.

use vstd::prelude::*;

pub mod builder;
pub mod demo;
pub mod export;
pub mod model;
pub mod query;
pub mod reach;
pub mod resolve;
pub mod scan;

use crate::model::{AnalysisError, CalleeRef, Diagnostic, Graph};

verus! {

/// The result of analyzing one unit: the graph, the verified-reachable and
/// recursion masks over its node indices, and the non-fatal diagnostics
/// gathered on the way.
pub struct Analysis {
    pub graph: Graph,
    pub verified: Vec<bool>,
    pub recursive: Vec<bool>,
    pub diagnostics: Vec<Diagnostic>,
}

impl Graph {
    /// Index of the node with the given id, if the unit defines one.
    pub fn node_index(&self, name: &Vec<char>) -> (r: Option<usize>)
        ensures
            r matches Some(d) ==> (d as int) < self.n() && self.nodes@[d as int].name@ == name@,
            r is None ==> forall|d: int|
                0 <= d < self.n() ==> (#[trigger] self.nodes@[d].name@) != name@,
    {
        let r = crate::resolve::find_node(&self.nodes, name);
        proof {
            if r is None {
                assert forall|d: int| 0 <= d < self.n() implies (#[trigger] self.nodes@[d].name@)
                    != name@ by {
                    if self.nodes@[d].name@ == name@ {
                        assert(crate::resolve::has_node_named(self.nodes@, name@));
                    }
                }
            }
        }
        r
    }
}

/// The graph and diagnostics of an analysis are pinned by the unit's text:
/// the nodes are exactly the definitions the scan of the text collects; the
/// edges are the aggregation of the scanned call sites, each resolved by the
/// lexical rule against those nodes; and the diagnostics are the scan's
/// malformed-definition reports followed by the unresolved-call reports, in
/// order.
pub open spec fn analysis_rel(src: Seq<char>, a: Analysis) -> bool {
    &&& crate::scan::defs_view(a.graph.nodes@) == crate::scan::scan_spec(src).defs
    &&& exists|raws: Seq<crate::scan::RawCall>, unit: Seq<crate::model::CallEdge>|
        #![trigger crate::scan::calls_view(raws), crate::builder::aggregate(unit)]
        {
            &&& crate::scan::calls_view(raws) == crate::scan::scan_spec(src).calls
            &&& unit.len() == raws.len()
            &&& forall|i: int|
                0 <= i < raws.len() ==> {
                    let e = #[trigger] unit[i];
                    &&& e.caller == raws[i].caller
                    &&& e.line == raws[i].line
                    &&& e.via_closure == raws[i].via_closure
                    &&& e.occurrences == 1
                    &&& crate::resolve::resolves_to(
                        a.graph.nodes@,
                        e.caller as int,
                        raws[i].name@,
                        e.callee,
                    )
                }
            &&& a.graph.edges@ == crate::builder::aggregate(unit)
            &&& a.diagnostics@ == crate::scan::scan_spec(src).diags + crate::resolve::unresolved_diags(
                a.graph.nodes@,
                raws,
            )
        }
}

/// The whole pipeline over one unit's text: collect definitions, extract
/// call sites, resolve them, build the graph, and compute the verified and
/// recursion masks. An empty unit is the one hard failure; everything else
/// yields a best-effort graph plus diagnostics.
pub fn analyze(src: &Vec<char>) -> (r: Result<Analysis, AnalysisError>)
    ensures
        r is Err <==> src@.len() == 0,
        r matches Err(e) ==> e == AnalysisError::InvalidInput,
        r matches Ok(a) ==> {
            &&& a.graph.wf()
            &&& a.graph.entries_exact()
            &&& analysis_rel(src@, a)
            &&& a.verified@.len() == a.graph.n()
            &&& forall|j: int|
                0 <= j < a.graph.n() ==> (#[trigger] a.verified@[j]
                    <==> a.graph.verified_reachable(j))
            &&& a.recursive@.len() == a.graph.n()
            &&& forall|j: int|
                0 <= j < a.graph.n() ==> (#[trigger] a.recursive@[j] <==> a.graph.reaches(j, j))
        },
{
    if src.len() == 0 {
        return Err(AnalysisError::InvalidInput);
    }
    let (nodes, raws, mut diags) = crate::scan::scan_unit(src);
    let ghost scan_diags0 = diags@;
    let ghost raws0 = raws@;
    let (unit_edges, rdiags) = crate::resolve::resolve_calls(&nodes, raws);
    let ghost unit0 = unit_edges@;
    proof {
        // the resolver's rule makes every unit edge structurally sound and
        // keeps external and unresolved names off the node table
        assert forall|i: int|
            0 <= i < unit_edges@.len() implies crate::model::edge_wf(
            #[trigger] unit_edges@[i],
            nodes@.len() as int,
        ) by {}
        assert forall|i: int, d: int|
            0 <= i < unit_edges@.len() && 0 <= d < nodes@.len() implies match (#[trigger] unit_edges@[i]).callee {
            CalleeRef::Resolved(_) => true,
            CalleeRef::External(nm) => (#[trigger] nodes@[d].name@) != nm@,
            CalleeRef::Unresolved(nm) => nodes@[d].name@ != nm@,
        } by {
            match unit_edges@[i].callee {
                CalleeRef::Resolved(_) => {},
                CalleeRef::External(nm) => {
                    if nodes@[d].name@ == nm@ {
                        assert(crate::resolve::has_node_named(nodes@, nm@));
                    }
                },
                CalleeRef::Unresolved(nm) => {
                    if nodes@[d].name@ == nm@ {
                        assert(crate::resolve::has_node_named(nodes@, nm@));
                    }
                },
            }
        }
    }
    let ghost nodes_seq = nodes@;
    let graph = crate::builder::build_graph(nodes, unit_edges);
    let verified = graph.verified_mask();
    let recursive = graph.recursive_mask();
    let mut k: usize = 0;
    while k < rdiags.len()
        invariant
            k <= rdiags@.len(),
            diags@ == scan_diags0 + rdiags@.take(k as int),
        decreases rdiags@.len() - k,
    {
        proof {
            assert(scan_diags0 + rdiags@.take(k as int + 1) =~= (scan_diags0 + rdiags@.take(
                k as int,
            )).push(rdiags@[k as int]));
        }
        diags.push(rdiags[k]);
        k = k + 1;
    }
    proof {
        assert(diags@ == scan_diags0 + rdiags@);
        assert(rdiags@.take(rdiags@.len() as int) =~= rdiags@);
    }
    let a = Analysis { graph, verified, recursive, diagnostics: diags };
    proof {
        assert(a.graph.nodes@ == nodes_seq);
        assert(crate::scan::calls_view(raws0) == crate::scan::scan_spec(src@).calls);
        assert(a.graph.edges@ == crate::builder::aggregate(unit0));
        assert(a.diagnostics@ == crate::scan::scan_spec(src@).diags
            + crate::resolve::unresolved_diags(a.graph.nodes@, raws0));
        assert(analysis_rel(src@, a));
    }
    Ok(a)
}

} // verus!
