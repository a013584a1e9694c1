use callgraph::analyze;
use callgraph::export::{export, CalleeKind};
use callgraph::model::{AnalysisError, DiagKind, Visibility};
use callgraph::query::TopoResult;

fn chars(s: &str) -> Vec<char> {
    s.chars().collect()
}

fn sample_unit() -> Vec<char> {
    let src = "// sample unit\n\
#[verifier::verify]\n\
fn verified_add(a: u32, b: u32) -> u32 {\n\
    a + b\n\
}\n\
\n\
fn main() {\n\
    let result = calculate_sum(5, 3);\n\
    println!(\"Result: {}\", result);\n\
\n\
    let verified = verified_add(10, 20);\n\
    println!(\"Verified: {}\", verified);\n\
}\n\
\n\
fn calculate_sum(x: i32, y: i32) -> i32 {\n\
    let temp = helper_function(x);\n\
    add_numbers(temp, y)\n\
}\n\
\n\
fn helper_function(n: i32) -> i32 {\n\
    n * 2\n\
}\n\
\n\
fn add_numbers(a: i32, b: i32) -> i32 {\n\
    a + b\n\
}\n\
\n\
pub fn public_api_function() {\n\
    let data = process_data(vec![1, 2, 3]);\n\
    internal_handler(data);\n\
}\n\
\n\
fn process_data(input: Vec<i32>) -> Vec<i32> {\n\
    input.iter().map(|x| x * 2).collect()\n\
}\n\
\n\
fn internal_handler(data: Vec<i32>) {\n\
    for item in data {\n\
        println!(\"Processing: {}\", item);\n\
    }\n\
}\n";
    chars(src)
}

fn idx(a: &callgraph::Analysis, name: &str) -> usize {
    a.graph
        .node_index(&chars(name))
        .unwrap_or_else(|| panic!("no node named {}", name))
}

#[test]
fn collects_the_sample_definitions() {
    let a = analyze(&sample_unit()).unwrap();
    let names: Vec<String> = a
        .graph
        .nodes
        .iter()
        .map(|n| n.name.iter().collect::<String>())
        .collect();
    assert_eq!(
        names,
        vec![
            "verified_add",
            "main",
            "calculate_sum",
            "helper_function",
            "add_numbers",
            "public_api_function",
            "process_data",
            "internal_handler"
        ]
    );
    assert!(matches!(a.graph.nodes[5].visibility, Visibility::Public));
    assert!(matches!(a.graph.nodes[1].visibility, Visibility::Private));
    assert!(a.diagnostics.is_empty());
}

#[test]
fn annotation_tags_are_kept_verbatim() {
    let a = analyze(&sample_unit()).unwrap();
    let tags: Vec<String> = a.graph.nodes[0]
        .annotations
        .iter()
        .map(|t| t.iter().collect::<String>())
        .collect();
    assert_eq!(tags, vec!["verifier::verify"]);
    assert!(a.graph.nodes[1].annotations.is_empty());
}

#[test]
fn reachable_from_main_matches_the_sample() {
    let a = analyze(&sample_unit()).unwrap();
    let main = idx(&a, "main");
    let mask = a.graph.reachable_from(main);
    let mut reached: Vec<String> = Vec::new();
    for (j, hit) in mask.iter().enumerate() {
        if *hit {
            reached.push(a.graph.nodes[j].name.iter().collect());
        }
    }
    reached.sort();
    assert_eq!(
        reached,
        vec!["add_numbers", "calculate_sum", "helper_function", "verified_add"]
    );
}

#[test]
fn reachable_from_is_a_fixed_point() {
    let a = analyze(&sample_unit()).unwrap();
    let main = idx(&a, "main");
    let first = a.graph.reachable_from(main);
    let second = a.graph.reachable_from(main);
    assert_eq!(first, second);
}

#[test]
fn closure_bodies_yield_no_phantom_edges() {
    let a = analyze(&sample_unit()).unwrap();
    let rec = export(&a.graph, &a.verified);
    let api = "public_api_function".to_string();
    let from_api: Vec<String> = rec
        .edges
        .iter()
        .filter(|e| e.caller.iter().collect::<String>() == api)
        .map(|e| e.callee.iter().collect::<String>())
        .collect();
    assert_eq!(from_api, vec!["process_data", "internal_handler"]);
}

#[test]
fn verified_set_is_only_the_annotated_leaf() {
    let a = analyze(&sample_unit()).unwrap();
    let verified_add = idx(&a, "verified_add");
    let main = idx(&a, "main");
    for (j, hit) in a.verified.iter().enumerate() {
        assert_eq!(*hit, j == verified_add, "node index {}", j);
    }
    assert!(!a.verified[main]);
}

#[test]
fn print_calls_resolve_to_external_symbols() {
    let a = analyze(&sample_unit()).unwrap();
    assert!(a.graph.node_index(&chars("println")).is_none());
    let rec = export(&a.graph, &a.verified);
    let main_println: Vec<_> = rec
        .edges
        .iter()
        .filter(|e| {
            e.caller.iter().collect::<String>() == "main"
                && e.callee.iter().collect::<String>() == "println"
        })
        .collect();
    assert_eq!(main_println.len(), 1);
    assert_eq!(main_println[0].callee_kind, CalleeKind::External);
    assert_eq!(main_println[0].occurrences, 2);
    for e in &rec.edges {
        assert_ne!(e.callee_kind, CalleeKind::Unresolved);
    }
}

#[test]
fn sample_combinators_are_external() {
    let a = analyze(&sample_unit()).unwrap();
    let rec = export(&a.graph, &a.verified);
    let from_process: Vec<(String, CalleeKind)> = rec
        .edges
        .iter()
        .filter(|e| e.caller.iter().collect::<String>() == "process_data")
        .map(|e| (e.callee.iter().collect::<String>(), e.callee_kind))
        .collect();
    assert_eq!(
        from_process,
        vec![
            ("iter".to_string(), CalleeKind::External),
            ("map".to_string(), CalleeKind::External),
            ("collect".to_string(), CalleeKind::External)
        ]
    );
}

#[test]
fn topological_order_succeeds_on_the_sample() {
    let a = analyze(&sample_unit()).unwrap();
    let order = match a.graph.topological_order() {
        TopoResult::Ordered(o) => o,
        TopoResult::CycleDetected(_) => panic!("the sample is acyclic"),
    };
    assert_eq!(order.len(), a.graph.nodes.len());
    let pos = |v: usize| order.iter().position(|x| *x == v).unwrap();
    let main = idx(&a, "main");
    let calculate_sum = idx(&a, "calculate_sum");
    let helper_function = idx(&a, "helper_function");
    let add_numbers = idx(&a, "add_numbers");
    let verified_add = idx(&a, "verified_add");
    let api = idx(&a, "public_api_function");
    let process_data = idx(&a, "process_data");
    let internal_handler = idx(&a, "internal_handler");
    assert!(pos(main) < pos(calculate_sum));
    assert!(pos(main) < pos(verified_add));
    assert!(pos(calculate_sum) < pos(helper_function));
    assert!(pos(calculate_sum) < pos(add_numbers));
    assert!(pos(api) < pos(process_data));
    assert!(pos(api) < pos(internal_handler));
}

#[test]
fn export_twice_yields_identical_records() {
    let a = analyze(&sample_unit()).unwrap();
    let first = export(&a.graph, &a.verified);
    let second = export(&a.graph, &a.verified);
    assert_eq!(first, second);
}

#[test]
fn every_edge_caller_is_a_node_id() {
    let a = analyze(&sample_unit()).unwrap();
    let rec = export(&a.graph, &a.verified);
    for e in &rec.edges {
        assert!(rec.nodes.iter().any(|n| n.id == e.caller));
        if e.callee_kind == CalleeKind::Resolved {
            assert!(rec.nodes.iter().any(|n| n.id == e.callee));
        }
    }
}

#[test]
fn entry_points_are_main_and_the_public_api() {
    let a = analyze(&sample_unit()).unwrap();
    let main = idx(&a, "main");
    let api = idx(&a, "public_api_function");
    let mut expected = vec![main, api];
    expected.sort();
    assert_eq!(a.graph.entries, expected);
}

#[test]
fn empty_source_is_the_hard_failure() {
    assert!(matches!(analyze(&Vec::new()), Err(AnalysisError::InvalidInput)));
}

#[test]
fn malformed_definition_is_reported_and_skipped() {
    let a = analyze(&chars("fn (x) {\n}\nfn good() {\n}\n")).unwrap();
    assert_eq!(a.graph.nodes.len(), 1);
    let names: Vec<String> = a
        .graph
        .nodes
        .iter()
        .map(|n| n.name.iter().collect::<String>())
        .collect();
    assert_eq!(names, vec!["good"]);
    assert_eq!(a.diagnostics.len(), 1);
    assert_eq!(a.diagnostics[0].kind, DiagKind::MalformedDefinition);
    assert_eq!(a.diagnostics[0].line, 1);
}

#[test]
fn unknown_callee_is_reported_unresolved() {
    let a = analyze(&chars("fn a() {\n    mystery()\n}\n")).unwrap();
    assert_eq!(a.diagnostics.len(), 1);
    assert_eq!(a.diagnostics[0].kind, DiagKind::UnresolvedCall);
    assert_eq!(a.diagnostics[0].line, 2);
    let rec = export(&a.graph, &a.verified);
    assert_eq!(rec.edges.len(), 1);
    assert_eq!(rec.edges[0].callee_kind, CalleeKind::Unresolved);
    assert_eq!(rec.edges[0].callee.iter().collect::<String>(), "mystery");
    assert!(a.graph.node_index(&chars("mystery")).is_none());
}

#[test]
fn mutual_recursion_fails_topological_order() {
    let a = analyze(&chars("fn a() {\n    b()\n}\nfn b() {\n    a()\n}\n")).unwrap();
    let stuck = match a.graph.topological_order() {
        TopoResult::Ordered(_) => panic!("a two-cycle admits no order"),
        TopoResult::CycleDetected(s) => s,
    };
    let mut stuck = stuck;
    stuck.sort();
    assert_eq!(stuck, vec![0, 1]);
    assert!(a.recursive[0]);
    assert!(a.recursive[1]);
}

#[test]
fn a_self_loop_is_recursive_but_orderable() {
    let a = analyze(&chars("fn s() {\n    s()\n}\nfn t() {\n    s()\n}\n")).unwrap();
    assert!(a.recursive[0]);
    assert!(!a.recursive[1]);
    assert!(matches!(a.graph.topological_order(), TopoResult::Ordered(_)));
}

#[test]
fn calls_inside_closures_carry_the_flag() {
    let a = analyze(&chars(
        "fn a(data: Vec<i32>) {\n    data.map(|x| helper(x));\n}\nfn helper(x: i32) -> i32 {\n    x\n}\n",
    ))
    .unwrap();
    let rec = export(&a.graph, &a.verified);
    let helper_edge = rec
        .edges
        .iter()
        .find(|e| e.callee.iter().collect::<String>() == "helper")
        .unwrap();
    assert_eq!(helper_edge.callee_kind, CalleeKind::Resolved);
    assert!(helper_edge.via_closure);
    let map_edge = rec
        .edges
        .iter()
        .find(|e| e.callee.iter().collect::<String>() == "map")
        .unwrap();
    assert!(!map_edge.via_closure);
}

#[test]
fn nested_definitions_are_qualified_and_win_resolution() {
    let a = analyze(&chars(
        "fn outer() {\n    fn inner() {\n    }\n    inner()\n}\nfn inner() {\n}\n",
    ))
    .unwrap();
    let names: Vec<String> = a
        .graph
        .nodes
        .iter()
        .map(|n| n.name.iter().collect::<String>())
        .collect();
    assert_eq!(names, vec!["outer", "outer::inner", "inner"]);
    let rec = export(&a.graph, &a.verified);
    let call = rec
        .edges
        .iter()
        .find(|e| e.caller.iter().collect::<String>() == "outer")
        .unwrap();
    assert_eq!(call.callee_kind, CalleeKind::Resolved);
    assert_eq!(call.callee.iter().collect::<String>(), "outer::inner");
}

#[test]
fn spans_cover_the_definitions() {
    let a = analyze(&sample_unit()).unwrap();
    let v = idx(&a, "verified_add");
    assert_eq!(a.graph.nodes[v].start_line, 3);
    assert_eq!(a.graph.nodes[v].end_line, 5);
    let m = idx(&a, "main");
    assert_eq!(a.graph.nodes[m].start_line, 7);
    assert_eq!(a.graph.nodes[m].end_line, 13);
}

#[test]
fn shortest_path_follows_the_call_chain() {
    let a = analyze(&sample_unit()).unwrap();
    let main = idx(&a, "main");
    let calculate_sum = idx(&a, "calculate_sum");
    let add_numbers = idx(&a, "add_numbers");
    let path = a.graph.shortest_path(main, add_numbers).unwrap();
    assert_eq!(path, vec![main, calculate_sum, add_numbers]);
}

#[test]
fn shortest_path_to_itself_is_trivial() {
    let a = analyze(&sample_unit()).unwrap();
    let main = idx(&a, "main");
    assert_eq!(a.graph.shortest_path(main, main).unwrap(), vec![main]);
}

#[test]
fn shortest_path_reports_no_path() {
    let a = analyze(&sample_unit()).unwrap();
    let main = idx(&a, "main");
    let add_numbers = idx(&a, "add_numbers");
    assert!(a.graph.shortest_path(add_numbers, main).is_none());
}

#[test]
fn shortest_path_prefers_the_direct_edge() {
    let a = analyze(&chars(
        "fn a() {\n    b();\n    c();\n}\nfn b() {\n    c()\n}\nfn c() {\n}\n",
    ))
    .unwrap();
    let na = idx(&a, "a");
    let nc = idx(&a, "c");
    let path = a.graph.shortest_path(na, nc).unwrap();
    assert_eq!(path, vec![na, nc]);
}

#[test]
fn an_unreferenced_function_is_an_entry_candidate() {
    let a = analyze(&chars("fn used() {\n}\nfn lonely() {\n}\nfn caller() {\n    used()\n}\n"))
        .unwrap();
    let lonely = idx(&a, "lonely");
    let caller = idx(&a, "caller");
    let used = idx(&a, "used");
    assert!(a.graph.entries.contains(&lonely));
    assert!(a.graph.entries.contains(&caller));
    assert!(!a.graph.entries.contains(&used));
}

#[test]
fn cycle_report_excludes_downstream_nodes() {
    let a = analyze(&chars(
        "fn a() {\n    b()\n}\nfn b() {\n    a();\n    c();\n}\nfn c() {\n}\n",
    ))
    .unwrap();
    let na = idx(&a, "a");
    let nb = idx(&a, "b");
    let stuck = match a.graph.topological_order() {
        TopoResult::Ordered(_) => panic!("the two-cycle admits no order"),
        TopoResult::CycleDetected(s) => s,
    };
    let mut stuck = stuck;
    stuck.sort();
    let mut expected = vec![na, nb];
    expected.sort();
    assert_eq!(stuck, expected);
}
