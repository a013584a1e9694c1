//! The export engine: a pure, renderer-friendly record set for the graph.

use vstd::prelude::*;

use crate::model::{CalleeRef, Graph, Visibility};

verus! {

/// Which kind of callee an edge record points at.
#[derive(Clone, Copy, PartialEq, Eq, Structural, Debug)]
pub enum CalleeKind {
    Resolved,
    External,
    Unresolved,
}

/// One exported node: id, visibility, tags, highlight flag and span.
#[derive(Clone, PartialEq, Eq, Debug)]
pub struct NodeRecord {
    pub id: Vec<char>,
    pub visibility: Visibility,
    pub annotations: Vec<Vec<char>>,
    pub verified_reachable: bool,
    pub start_line: usize,
    pub end_line: usize,
}

/// One exported edge: caller id, callee kind and reference, occurrence count
/// and closure flag.
#[derive(Clone, PartialEq, Eq, Debug)]
pub struct EdgeRecord {
    pub caller: Vec<char>,
    pub callee_kind: CalleeKind,
    pub callee: Vec<char>,
    pub occurrences: usize,
    pub via_closure: bool,
}

/// The full record set handed to an external renderer.
#[derive(Clone, PartialEq, Eq, Debug)]
pub struct ExportRecord {
    pub nodes: Vec<NodeRecord>,
    pub edges: Vec<EdgeRecord>,
}

/// What the export of a graph and a verified mask must look like; this pins
/// every field of every record, so the export is a pure function of its
/// inputs.
pub open spec fn export_rel(g: Graph, verified: Seq<bool>, r: ExportRecord) -> bool {
    &&& r.nodes@.len() == g.n()
    &&& forall|i: int|
        0 <= i < g.n() ==> {
            let nr = #[trigger] r.nodes@[i];
            &&& nr.id@ == g.nodes@[i].name@
            &&& nr.visibility == g.nodes@[i].visibility
            &&& nr.annotations@.len() == g.nodes@[i].annotations@.len()
            &&& forall|t: int|
                0 <= t < nr.annotations@.len() ==> (#[trigger] nr.annotations@[t]@)
                    == g.nodes@[i].annotations@[t]@
            &&& nr.verified_reachable == verified[i]
            &&& nr.start_line == g.nodes@[i].start_line
            &&& nr.end_line == g.nodes@[i].end_line
        }
    &&& r.edges@.len() == g.edges@.len()
    &&& forall|k: int|
        0 <= k < g.edges@.len() ==> {
            let er = #[trigger] r.edges@[k];
            &&& er.caller@ == g.nodes@[g.edges@[k].caller as int].name@
            &&& er.occurrences == g.edges@[k].occurrences
            &&& er.via_closure == g.edges@[k].via_closure
            &&& match g.edges@[k].callee {
                CalleeRef::Resolved(j) => er.callee_kind == CalleeKind::Resolved && er.callee@
                    == g.nodes@[j as int].name@,
                CalleeRef::External(nm) => er.callee_kind == CalleeKind::External && er.callee@
                    == nm@,
                CalleeRef::Unresolved(nm) => er.callee_kind == CalleeKind::Unresolved
                    && er.callee@ == nm@,
            }
        }
}

/// Copies a character vector.
fn clone_chars(v: &Vec<char>) -> (r: Vec<char>)
    ensures
        r@ == v@,
{
    let mut r: Vec<char> = Vec::new();
    let mut i: usize = 0;
    while i < v.len()
        invariant
            i <= v@.len(),
            r@ == v@.take(i as int),
        decreases v@.len() - i,
    {
        proof {
            assert(v@.take(i as int + 1) =~= v@.take(i as int).push(v@[i as int]));
        }
        r.push(v[i]);
        i = i + 1;
    }
    proof {
        assert(v@.take(v@.len() as int) =~= v@);
    }
    r
}

/// Copies a list of tags.
fn clone_tags(v: &Vec<Vec<char>>) -> (r: Vec<Vec<char>>)
    ensures
        r@.len() == v@.len(),
        forall|t: int| 0 <= t < v@.len() ==> (#[trigger] r@[t]@) == v@[t]@,
{
    let mut r: Vec<Vec<char>> = Vec::new();
    let mut i: usize = 0;
    while i < v.len()
        invariant
            i <= v@.len(),
            r@.len() == i,
            forall|t: int| 0 <= t < i ==> (#[trigger] r@[t]@) == v@[t]@,
        decreases v@.len() - i,
    {
        r.push(clone_chars(&v[i]));
        i = i + 1;
    }
    r
}

/// `export`: the side-effect-free record set for a graph snapshot and its
/// verified mask.
pub fn export(g: &Graph, verified: &Vec<bool>) -> (r: ExportRecord)
    requires
        g.wf(),
        verified@.len() == g.n(),
    ensures
        export_rel(*g, verified@, r),
{
    let mut nrs: Vec<NodeRecord> = Vec::new();
    let mut i: usize = 0;
    while i < g.nodes.len()
        invariant
            g.wf(),
            verified@.len() == g.n(),
            i <= g.n(),
            nrs@.len() == i,
            forall|i2: int|
                0 <= i2 < i ==> {
                    let nr = #[trigger] nrs@[i2];
                    &&& nr.id@ == g.nodes@[i2].name@
                    &&& nr.visibility == g.nodes@[i2].visibility
                    &&& nr.annotations@.len() == g.nodes@[i2].annotations@.len()
                    &&& forall|t: int|
                        0 <= t < nr.annotations@.len() ==> (#[trigger] nr.annotations@[t]@)
                            == g.nodes@[i2].annotations@[t]@
                    &&& nr.verified_reachable == verified@[i2]
                    &&& nr.start_line == g.nodes@[i2].start_line
                    &&& nr.end_line == g.nodes@[i2].end_line
                },
        decreases g.n() - i,
    {
        let node = &g.nodes[i];
        nrs.push(
            NodeRecord {
                id: clone_chars(&node.name),
                visibility: node.visibility,
                annotations: clone_tags(&node.annotations),
                verified_reachable: verified[i],
                start_line: node.start_line,
                end_line: node.end_line,
            },
        );
        i = i + 1;
    }
    let mut ers: Vec<EdgeRecord> = Vec::new();
    let mut k: usize = 0;
    while k < g.edges.len()
        invariant
            g.wf(),
            k <= g.edges@.len(),
            ers@.len() == k,
            forall|k2: int|
                0 <= k2 < k ==> {
                    let er = #[trigger] ers@[k2];
                    &&& er.caller@ == g.nodes@[g.edges@[k2].caller as int].name@
                    &&& er.occurrences == g.edges@[k2].occurrences
                    &&& er.via_closure == g.edges@[k2].via_closure
                    &&& match g.edges@[k2].callee {
                        CalleeRef::Resolved(j) => er.callee_kind == CalleeKind::Resolved
                            && er.callee@ == g.nodes@[j as int].name@,
                        CalleeRef::External(nm) => er.callee_kind == CalleeKind::External
                            && er.callee@ == nm@,
                        CalleeRef::Unresolved(nm) => er.callee_kind == CalleeKind::Unresolved
                            && er.callee@ == nm@,
                    }
                },
        decreases g.edges@.len() - k,
    {
        let e = &g.edges[k];
        proof {
            assert(crate::model::edge_wf(g.edges@[k as int], g.n()));
        }
        let (kind, callee_name): (CalleeKind, Vec<char>) = match &e.callee {
            CalleeRef::Resolved(j) => (CalleeKind::Resolved, clone_chars(&g.nodes[*j].name)),
            CalleeRef::External(nm) => (CalleeKind::External, clone_chars(nm)),
            CalleeRef::Unresolved(nm) => (CalleeKind::Unresolved, clone_chars(nm)),
        };
        ers.push(
            EdgeRecord {
                caller: clone_chars(&g.nodes[e.caller].name),
                callee_kind: kind,
                callee: callee_name,
                occurrences: e.occurrences,
                via_closure: e.via_closure,
            },
        );
        k = k + 1;
    }
    ExportRecord { nodes: nrs, edges: ers }
}

/// Two record sets carry the same content, field for field.
pub open spec fn records_equal(r1: ExportRecord, r2: ExportRecord) -> bool {
    &&& r1.nodes@.len() == r2.nodes@.len()
    &&& forall|i: int|
        0 <= i < r1.nodes@.len() ==> {
            let a = #[trigger] r1.nodes@[i];
            let b = #[trigger] r2.nodes@[i];
            &&& a.id@ == b.id@
            &&& a.visibility == b.visibility
            &&& a.annotations@.len() == b.annotations@.len()
            &&& forall|t: int|
                0 <= t < a.annotations@.len() ==> (#[trigger] a.annotations@[t]@)
                    == b.annotations@[t]@
            &&& a.verified_reachable == b.verified_reachable
            &&& a.start_line == b.start_line
            &&& a.end_line == b.end_line
        }
    &&& r1.edges@.len() == r2.edges@.len()
    &&& forall|k: int|
        0 <= k < r1.edges@.len() ==> {
            let a = #[trigger] r1.edges@[k];
            let b = #[trigger] r2.edges@[k];
            &&& a.caller@ == b.caller@
            &&& a.callee_kind == b.callee_kind
            &&& a.callee@ == b.callee@
            &&& a.occurrences == b.occurrences
            &&& a.via_closure == b.via_closure
        }
}

/// Exporting is idempotent: two exports of one graph snapshot and one
/// verified mask carry identical records.
pub proof fn lemma_export_idempotent(g: Graph, verified: Seq<bool>, r1: ExportRecord, r2: ExportRecord)
    requires
        export_rel(g, verified, r1),
        export_rel(g, verified, r2),
    ensures
        records_equal(r1, r2),
{
}

/// Some node record carries exactly this id.
pub open spec fn node_with_id(r: ExportRecord, id: Seq<char>) -> bool {
    exists|i: int| 0 <= i < r.nodes@.len() && (#[trigger] r.nodes@[i].id@) == id
}

/// Referential integrity at the export boundary: every edge record's caller
/// id is the id of some node record, and every resolved callee likewise.
pub proof fn lemma_export_referential_integrity(g: Graph, verified: Seq<bool>, r: ExportRecord)
    requires
        g.wf(),
        export_rel(g, verified, r),
    ensures
        forall|k: int|
            0 <= k < r.edges@.len() ==> node_with_id(r, (#[trigger] r.edges@[k]).caller@),
        forall|k: int|
            0 <= k < r.edges@.len() ==> ((#[trigger] r.edges@[k]).callee_kind
                == CalleeKind::Resolved ==> node_with_id(r, r.edges@[k].callee@)),
{
    assert forall|k: int| 0 <= k < r.edges@.len() implies node_with_id(
        r,
        (#[trigger] r.edges@[k]).caller@,
    ) by {
        assert(crate::model::edge_wf(g.edges@[k], g.n()));
        let i = g.edges@[k].caller as int;
        assert(r.nodes@[i].id@ == r.edges@[k].caller@);
    }
    assert forall|k: int|
        0 <= k < r.edges@.len() && (#[trigger] r.edges@[k]).callee_kind
            == CalleeKind::Resolved implies node_with_id(r, r.edges@[k].callee@) by {
        assert(crate::model::edge_wf(g.edges@[k], g.n()));
        match g.edges@[k].callee {
            CalleeRef::Resolved(j) => {
                assert(r.nodes@[j as int].id@ == r.edges@[k].callee@);
            },
            CalleeRef::External(_) => {
                assert(false);
            },
            CalleeRef::Unresolved(_) => {
                assert(false);
            },
        }
    }
}

} // verus!
