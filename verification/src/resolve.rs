//! The name resolver: maps each extracted call name to a known definition,
//! a recognized external symbol, or an unresolved reference.

use vstd::prelude::*;

use crate::model::{CallEdge, CalleeRef, DiagKind, Diagnostic, FunctionNode, names_unique};
use crate::scan::RawCall;

verus! {

/// Names recognized as built-in output routines or standard sequence
/// combinators; calls to them become `External` symbols rather than
/// unresolved references.
pub open spec fn spec_is_builtin(name: Seq<char>) -> bool {
    ||| name == "println"@
    ||| name == "print"@
    ||| name == "eprintln"@
    ||| name == "format"@
    ||| name == "write"@
    ||| name == "writeln"@
    ||| name == "panic"@
    ||| name == "iter"@
    ||| name == "into_iter"@
    ||| name == "map"@
    ||| name == "filter"@
    ||| name == "fold"@
    ||| name == "for_each"@
    ||| name == "collect"@
    ||| name == "push"@
    ||| name == "len"@
    ||| name == "to_string"@
    ||| name == "unwrap"@
}

pub fn is_builtin(name: &Vec<char>) -> (r: bool)
    ensures
        r == spec_is_builtin(name@),
{
    crate::scan::vec_eq_str(name, "println") || crate::scan::vec_eq_str(name, "print")
        || crate::scan::vec_eq_str(name, "eprintln") || crate::scan::vec_eq_str(name, "format")
        || crate::scan::vec_eq_str(name, "write") || crate::scan::vec_eq_str(name, "writeln")
        || crate::scan::vec_eq_str(name, "panic") || crate::scan::vec_eq_str(name, "iter")
        || crate::scan::vec_eq_str(name, "into_iter") || crate::scan::vec_eq_str(name, "map")
        || crate::scan::vec_eq_str(name, "filter") || crate::scan::vec_eq_str(name, "fold")
        || crate::scan::vec_eq_str(name, "for_each") || crate::scan::vec_eq_str(name, "collect")
        || crate::scan::vec_eq_str(name, "push") || crate::scan::vec_eq_str(name, "len")
        || crate::scan::vec_eq_str(name, "to_string") || crate::scan::vec_eq_str(name, "unwrap")
}

/// The qualified id of a name seen inside an enclosing definition.
pub open spec fn spec_qualified(parent: Seq<char>, name: Seq<char>) -> Seq<char> {
    parent + "::"@ + name
}

/// Some node carries exactly this id.
pub open spec fn has_node_named(nodes: Seq<FunctionNode>, name: Seq<char>) -> bool {
    exists|d: int| 0 <= d < nodes.len() && (#[trigger] nodes[d].name@) == name
}

/// The resolution rule, purely lexical and single-unit: the nearest enclosing
/// scope (the caller's qualified namespace) wins over a top-level name; a
/// name defined nowhere in the unit resolves to a recognized external symbol
/// or is reported unresolved.
pub open spec fn resolves_to(
    nodes: Seq<FunctionNode>,
    caller: int,
    name: Seq<char>,
    callee: CalleeRef,
) -> bool {
    if has_node_named(nodes, spec_qualified(nodes[caller].name@, name)) {
        callee matches CalleeRef::Resolved(d) && 0 <= (d as int) < nodes.len() && nodes[
            d as int
        ].name@ == spec_qualified(nodes[caller].name@, name)
    } else if has_node_named(nodes, name) {
        callee matches CalleeRef::Resolved(d) && 0 <= (d as int) < nodes.len() && nodes[
            d as int
        ].name@ == name
    } else if spec_is_builtin(name) {
        callee matches CalleeRef::External(nm) && nm@ == name
    } else {
        callee matches CalleeRef::Unresolved(nm) && nm@ == name
    }
}

/// A raw call that resolves to neither a definition nor a builtin.
pub open spec fn is_unresolved_raw(nodes: Seq<FunctionNode>, rc: RawCall) -> bool {
    &&& !has_node_named(nodes, spec_qualified(nodes[rc.caller as int].name@, rc.name@))
    &&& !has_node_named(nodes, rc.name@)
    &&& !spec_is_builtin(rc.name@)
}

/// The diagnostics the resolver reports: one `UnresolvedCall` per unresolved
/// raw call, in call order.
pub open spec fn unresolved_diags(nodes: Seq<FunctionNode>, raws: Seq<RawCall>) -> Seq<Diagnostic>
    decreases raws.len(),
{
    if raws.len() == 0 {
        Seq::empty()
    } else {
        unresolved_diags(nodes, raws.drop_last()) + if is_unresolved_raw(nodes, raws.last()) {
            seq![Diagnostic { kind: DiagKind::UnresolvedCall, line: raws.last().line }]
        } else {
            Seq::empty()
        }
    }
}

/// First node with the given id, if any.
pub fn find_node(nodes: &Vec<FunctionNode>, name: &Vec<char>) -> (r: Option<usize>)
    ensures
        r matches Some(d) ==> (d as int) < nodes@.len() && nodes@[d as int].name@ == name@,
        r is None ==> !has_node_named(nodes@, name@),
{
    let mut d: usize = 0;
    while d < nodes.len()
        invariant
            d <= nodes@.len(),
            forall|k: int| 0 <= k < d ==> (#[trigger] nodes@[k].name@) != name@,
        decreases nodes@.len() - d,
    {
        if crate::scan::vec_eq(&nodes[d].name, name) {
            return Some(d);
        }
        d = d + 1;
    }
    None
}

/// The caller's qualified id for a callee name.
pub(crate) fn make_qualified(parent: &Vec<char>, name: &Vec<char>) -> (q: Vec<char>)
    ensures
        q@ == spec_qualified(parent@, name@),
{
    proof {
        reveal_strlit("::");
    }
    let mut q: Vec<char> = Vec::new();
    let mut i: usize = 0;
    while i < parent.len()
        invariant
            i <= parent@.len(),
            q@ == parent@.take(i as int),
        decreases parent@.len() - i,
    {
        q.push(parent[i]);
        i = i + 1;
    }
    proof {
        assert(q@ =~= parent@);
        assert("::"@.len() == 2 && "::"@[0] == ':' && "::"@[1] == ':') by {
            reveal_strlit("::");
        }
    }
    q.push(':');
    q.push(':');
    proof {
        assert(q@ =~= parent@ + "::"@);
    }
    let ghost base = q@;
    let mut j: usize = 0;
    while j < name.len()
        invariant
            j <= name@.len(),
            q@ == base + name@.take(j as int),
        decreases name@.len() - j,
    {
        proof {
            assert(base + name@.take(j as int + 1) =~= (base + name@.take(j as int)).push(
                name@[j as int],
            ));
        }
        q.push(name[j]);
        j = j + 1;
    }
    proof {
        assert(name@.take(name@.len() as int) =~= name@);
    }
    q
}

/// Resolves every raw call. Returns one unit edge (occurrence count one) per
/// raw call, in order, and the `UnresolvedCall` diagnostics.
pub fn resolve_calls(nodes: &Vec<FunctionNode>, raws: Vec<RawCall>) -> (out: (
    Vec<CallEdge>,
    Vec<Diagnostic>,
))
    requires
        names_unique(nodes@),
        forall|c: int| 0 <= c < raws@.len() ==> ((#[trigger] raws@[c].caller) as int) < nodes@.len(),
    ensures
        out.0@.len() == raws@.len(),
        forall|i: int|
            0 <= i < raws@.len() ==> {
                let e = #[trigger] out.0@[i];
                &&& e.caller == raws@[i].caller
                &&& e.line == raws@[i].line
                &&& e.via_closure == raws@[i].via_closure
                &&& e.occurrences == 1
                &&& resolves_to(nodes@, e.caller as int, raws@[i].name@, e.callee)
            },
        out.1@ == unresolved_diags(nodes@, raws@),
{
    let ghost raws_seq = raws@;
    let mut raws = raws;
    let mut edges: Vec<CallEdge> = Vec::new();
    let mut diags: Vec<Diagnostic> = Vec::new();
    let mut i: usize = 0;
    while i < raws.len()
        invariant
            raws@.len() == raws_seq.len(),
            forall|k: int| i <= k < raws_seq.len() ==> #[trigger] raws@[k] == raws_seq[k],
            i <= raws_seq.len(),
            names_unique(nodes@),
            forall|c: int|
                0 <= c < raws_seq.len() ==> ((#[trigger] raws_seq[c].caller) as int)
                    < nodes@.len(),
            edges@.len() == i,
            forall|k: int|
                0 <= k < i ==> {
                    let e = #[trigger] edges@[k];
                    &&& e.caller == raws_seq[k].caller
                    &&& e.line == raws_seq[k].line
                    &&& e.via_closure == raws_seq[k].via_closure
                    &&& e.occurrences == 1
                    &&& resolves_to(nodes@, e.caller as int, raws_seq[k].name@, e.callee)
                },
            diags@ == unresolved_diags(nodes@, raws_seq.take(i as int)),
        decreases raws_seq.len() - i,
    {
        let mut rc = RawCall {
            caller: 0,
            name: Vec::new(),
            line: 0,
            via_closure: false,
        };
        raws.set_and_swap(i, &mut rc);
        let ghost rc0 = raws_seq[i as int];
        proof {
            assert(rc == rc0);
        }
        let q = make_qualified(&nodes[rc.caller].name, &rc.name);
        let mut unresolved = false;
        let callee: CalleeRef = match find_node(nodes, &q) {
            Some(d) => CalleeRef::Resolved(d),
            None => {
                match find_node(nodes, &rc.name) {
                    Some(d) => CalleeRef::Resolved(d),
                    None => {
                        if is_builtin(&rc.name) {
                            CalleeRef::External(rc.name)
                        } else {
                            unresolved = true;
                            CalleeRef::Unresolved(rc.name)
                        }
                    },
                }
            },
        };
        proof {
            assert(resolves_to(nodes@, rc0.caller as int, rc0.name@, callee));
            assert(unresolved == is_unresolved_raw(nodes@, rc0));
        }
        let edge = CallEdge {
            caller: rc.caller,
            callee,
            line: rc.line,
            via_closure: rc.via_closure,
            occurrences: 1,
        };
        edges.push(edge);
        if unresolved {
            diags.push(Diagnostic { kind: DiagKind::UnresolvedCall, line: rc.line });
        }
        proof {
            assert(raws_seq.take(i as int + 1).drop_last() =~= raws_seq.take(i as int));
            assert(raws_seq.take(i as int + 1).last() == rc0);
            assert(diags@ == unresolved_diags(nodes@, raws_seq.take(i as int + 1)));
        }
        i = i + 1;
    }
    proof {
        assert(raws_seq.take(raws_seq.len() as int) =~= raws_seq);
    }
    (edges, diags)
}

} // verus!
