//! The data model: function nodes, call edges, the graph and its
//! well-formedness invariant.

use vstd::prelude::*;

verus! {

/// Visibility of a collected function definition.
#[derive(Clone, Copy, PartialEq, Eq, Structural, Debug)]
pub enum Visibility {
    Public,
    Private,
}

/// One function definition discovered in the unit.
///
/// The id of a node is its `name`, unique within the graph; a nested
/// definition carries a qualified name (`outer::inner`). `annotations` holds
/// the raw text of the attribute lines immediately preceding the definition,
/// kept verbatim as opaque tags.
pub struct FunctionNode {
    pub name: Vec<char>,
    pub visibility: Visibility,
    pub start_line: usize,
    pub end_line: usize,
    pub annotations: Vec<Vec<char>>,
}

/// What a call site was resolved to.
///
/// `Resolved` carries the index of the callee node in `Graph::nodes`;
/// `External` a recognized built-in or standard combinator name; `Unresolved`
/// a name the unit does not define and the engine does not recognize.
pub enum CalleeRef {
    Resolved(usize),
    External(Vec<char>),
    Unresolved(Vec<char>),
}

/// An aggregated call edge: all call sites of one caller with the same callee
/// and the same closure flag collapse into one edge counting its occurrences.
/// `line` is the line of the first occurrence.
pub struct CallEdge {
    pub caller: usize,
    pub callee: CalleeRef,
    pub line: usize,
    pub via_closure: bool,
    pub occurrences: usize,
}

/// The directed multigraph over one analyzed unit.
pub struct Graph {
    pub nodes: Vec<FunctionNode>,
    pub edges: Vec<CallEdge>,
    pub entries: Vec<usize>,
}

/// A non-fatal finding reported while scanning or resolving.
#[derive(Clone, Copy, PartialEq, Eq, Structural, Debug)]
pub enum DiagKind {
    MalformedDefinition,
    UnresolvedCall,
}

/// A diagnostic: what was found and on which line.
#[derive(Clone, Copy, PartialEq, Eq, Structural, Debug)]
pub struct Diagnostic {
    pub kind: DiagKind,
    pub line: usize,
}

/// The one hard failure: an input from which no graph can be built.
#[derive(Clone, Copy, PartialEq, Eq, Structural, Debug)]
pub enum AnalysisError {
    InvalidInput,
}

/// Two callee references agree: same variant, and the same node index or
/// the same symbol text.
pub open spec fn spec_callee_eq(a: CalleeRef, b: CalleeRef) -> bool {
    match (a, b) {
        (CalleeRef::Resolved(i), CalleeRef::Resolved(j)) => i == j,
        (CalleeRef::External(x), CalleeRef::External(y)) => x@ == y@,
        (CalleeRef::Unresolved(x), CalleeRef::Unresolved(y)) => x@ == y@,
        _ => false,
    }
}

/// A single edge is structurally sound for a graph with `n` nodes.
pub open spec fn edge_wf(e: CallEdge, n: int) -> bool {
    &&& (e.caller as int) < n
    &&& (e.callee matches CalleeRef::Resolved(j) ==> (j as int) < n)
    &&& e.occurrences >= 1
}

/// Node ids (names) are pairwise distinct.
pub open spec fn names_unique(nodes: Seq<FunctionNode>) -> bool {
    forall|i: int, j: int|
        0 <= i < nodes.len() && 0 <= j < nodes.len() && i != j ==> (#[trigger] nodes[i].name@)
            != (#[trigger] nodes[j].name@)
}

impl Graph {
    /// Number of nodes.
    pub open spec fn n(self) -> int {
        self.nodes@.len() as int
    }

    /// An external or unresolved callee never names a node of the graph.
    pub open spec fn foreign_callees_foreign(self) -> bool {
        forall|k: int, i: int|
            0 <= k < self.edges@.len() && 0 <= i < self.n() ==> match (#[trigger] self.edges@[k]).callee {
                CalleeRef::Resolved(_) => true,
                CalleeRef::External(nm) => (#[trigger] self.nodes@[i].name@) != nm@,
                CalleeRef::Unresolved(nm) => self.nodes@[i].name@ != nm@,
            }
    }

    /// Structural invariant of every graph the engine hands out: edges point
    /// into the node table, ids are unique, foreign callees stay foreign, and
    /// the entry list is a strictly increasing sequence of node indices.
    pub open spec fn wf(self) -> bool {
        &&& forall|k: int|
            0 <= k < self.edges@.len() ==> edge_wf(#[trigger] self.edges@[k], self.n())
        &&& names_unique(self.nodes@)
        &&& self.foreign_callees_foreign()
        &&& forall|i: int|
            0 <= i < self.entries@.len() ==> (#[trigger] self.entries@[i] as int) < self.n()
        &&& forall|i: int, j: int|
            0 <= i < j < self.entries@.len() ==> #[trigger] self.entries@[i] < #[trigger] self.entries@[j]
    }

    /// Node `b` is a direct callee of node `a` through a resolved edge.
    pub open spec fn edge_step(self, a: int, b: int) -> bool {
        exists|k: int|
            0 <= k < self.edges@.len() && (#[trigger] self.edges@[k]).caller as int == a
                && (self.edges@[k].callee matches CalleeRef::Resolved(j) && j as int == b)
    }

    /// `p` is a walk along resolved edges whose vertices all lie in the graph.
    pub open spec fn valid_path(self, p: Seq<int>) -> bool {
        &&& p.len() >= 1
        &&& forall|i: int| 0 <= i < p.len() ==> 0 <= #[trigger] p[i] < self.n()
        &&& forall|i: int| 0 <= i < p.len() - 1 ==> self.edge_step(#[trigger] p[i], p[i + 1])
    }

    /// `b` is reachable from `a` along at least one resolved edge.
    pub open spec fn reaches(self, a: int, b: int) -> bool {
        exists|p: Seq<int>|
            #[trigger] self.valid_path(p) && p.len() >= 2 && p[0] == a && p[p.len() - 1] == b
    }

    /// A node bears a verification-style annotation.
    pub open spec fn is_annotated(self, j: int) -> bool {
        exists|t: int|
            0 <= t < self.nodes@[j].annotations@.len() && is_verification_tag(
                #[trigger] self.nodes@[j].annotations@[t]@,
            )
    }

    /// The forward-propagation rule for the verified set: a node is
    /// verified-reachable when it is itself annotated or some annotated node
    /// transitively calls it.
    pub open spec fn verified_reachable(self, j: int) -> bool {
        self.is_annotated(j) || exists|s: int|
            0 <= s < self.n() && #[trigger] self.is_annotated(s) && self.reaches(s, j)
    }

    /// A node is an entry point: public, named like the conventional program
    /// entry symbol, or without any incoming resolved edge.
    pub open spec fn is_entry(self, j: int) -> bool {
        is_entry_of(self.nodes@, self.edges@, j)
    }

    /// The entry list holds exactly the entry points.
    pub open spec fn entries_exact(self) -> bool {
        forall|j: int|
            0 <= j < self.n() ==> ((exists|i: int|
                0 <= i < self.entries@.len() && #[trigger] self.entries@[i] as int == j)
                <==> #[trigger] self.is_entry(j))
    }
}

/// A node is an entry point for the given node and edge tables: public,
/// named like the conventional program entry symbol, or without any incoming
/// resolved edge.
pub open spec fn is_entry_of(nodes: Seq<FunctionNode>, edges: Seq<CallEdge>, j: int) -> bool {
    ||| nodes[j].visibility == Visibility::Public
    ||| nodes[j].name@ == "main"@
    ||| forall|k: int|
        0 <= k < edges.len() ==> !((#[trigger] edges[k]).callee matches CalleeRef::Resolved(c)
            && c as int == j)
}

/// A tag is a verification tag when it contains the marker word.
pub open spec fn is_verification_tag(s: Seq<char>) -> bool {
    exists|i: int| 0 <= i && i + 6 <= s.len() && #[trigger] s.subrange(i, i + 6) == "verify"@
}

/// Referential integrity: in a well-formed graph, every edge's caller id is
/// the id of a graph node, and every resolved callee likewise.
pub proof fn lemma_referential_integrity(g: Graph)
    requires
        g.wf(),
    ensures
        forall|k: int|
            0 <= k < g.edges@.len() ==> (#[trigger] g.edges@[k].caller as int) < g.n(),
        forall|k: int|
            0 <= k < g.edges@.len() ==> ((#[trigger] g.edges@[k]).callee matches CalleeRef::Resolved(
                j,
            ) ==> (j as int) < g.n()),
{
    assert forall|k: int| 0 <= k < g.edges@.len() implies (#[trigger] g.edges@[k].caller as int)
        < g.n() by {
        assert(edge_wf(g.edges@[k], g.n()));
    }
    assert forall|k: int|
        0 <= k < g.edges@.len() implies ((#[trigger] g.edges@[k]).callee matches CalleeRef::Resolved(
        j,
    ) ==> (j as int) < g.n()) by {
        assert(edge_wf(g.edges@[k], g.n()));
    }
}

} // verus!
