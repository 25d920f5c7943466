use callgraph::call_graph::CallGraph;
use callgraph::function_db::{CallContext, CallInfo, Definition, FunctionDatabase, Parameter, Signature};

fn call_at(name: &str, order: u32, context: CallContext, depth: u32) -> CallInfo {
    CallInfo { function_name: name.to_string(), line: order, column: 1, order, context, context_depth: depth }
}

fn def_with(name: &str, file: &str, is_static: bool, calls: Vec<CallInfo>) -> Definition {
    Definition {
        signature: Signature {
            name: name.to_string(),
            return_type: "int".to_string(),
            args: vec![Parameter { name: Some("x".to_string()), param_type: "int".to_string() }],
            is_variadic: false,
        },
        body: "{ }".to_string(),
        source_file: file.to_string(),
        is_static,
        calls,
    }
}

fn def(name: &str, callees: &[&str]) -> Definition {
    let calls = callees
        .iter()
        .enumerate()
        .map(|(i, c)| call_at(c, i as u32 + 1, CallContext::Sequential, 0))
        .collect();
    def_with(name, "/src/prog.c", false, calls)
}

fn db_of(defs: Vec<Definition>) -> FunctionDatabase {
    let mut db = FunctionDatabase::new();
    for d in defs {
        db.add_function(d);
    }
    db
}

fn sorted_names(g: &CallGraph) -> Vec<String> {
    let mut v: Vec<String> = g.iter_nodes().iter().map(|(n, _)| (*n).clone()).collect();
    v.sort();
    v
}

fn sorted_edges(g: &CallGraph) -> Vec<(String, String, u32, String)> {
    let mut v = Vec::new();
    for (name, node) in g.iter_nodes() {
        for c in &node.calls {
            v.push((name.clone(), c.function_name.clone(), c.order, format!("{:?}", c.context)));
        }
    }
    v.sort();
    v
}

#[test]
fn three_cycle_is_built_and_ordered_once_each() {
    let db = db_of(vec![def("A", &["B"]), def("B", &["C"]), def("C", &["A"])]);
    let g = CallGraph::build(&db, "A");
    assert_eq!(g.node_count(), 3);
    assert_eq!(g.edge_count(), 3);
    assert_eq!(sorted_names(&g), vec!["A", "B", "C"]);
    let order = g.topological_order();
    assert_eq!(order, vec!["A", "B", "C"]);
}

#[test]
fn missing_entry_is_a_lone_external_node() {
    let db = FunctionDatabase::new();
    let g = CallGraph::build(&db, "main");
    assert_eq!(g.node_count(), 1);
    assert_eq!(g.edge_count(), 0);
    let node = g.get_node("main").unwrap();
    assert_eq!(node.function.signature.return_type, "extern");
    assert_eq!(node.function.signature.name, "main");
    assert!(node.calls.is_empty());
    assert!(!node.function.is_static);
    assert_eq!(g.topological_order(), vec!["main"]);
}

#[test]
fn unreached_functions_are_left_out() {
    let db = db_of(vec![def("main", &["a"]), def("a", &[]), def("unused", &["a"])]);
    let g = CallGraph::build(&db, "main");
    assert_eq!(sorted_names(&g), vec!["a", "main"]);
    assert!(g.get_node("unused").is_none());
}

#[test]
fn callee_without_definition_becomes_external_leaf() {
    let db = db_of(vec![def("main", &["printf", "work"]), def("work", &["printf"])]);
    let g = CallGraph::build(&db, "main");
    assert_eq!(sorted_names(&g), vec!["main", "printf", "work"]);
    let p = g.get_node("printf").unwrap();
    assert_eq!(p.function.signature.return_type, "extern");
    assert!(p.calls.is_empty());
    assert_eq!(g.edge_count(), 3);
}

#[test]
fn repeated_calls_are_separate_edges() {
    let calls = vec![
        call_at("B", 1, CallContext::Sequential, 0),
        call_at("B", 2, CallContext::Conditional { branch_id: 1 }, 1),
    ];
    let db = db_of(vec![def_with("A", "a.c", false, calls), def("B", &[])]);
    let g = CallGraph::build(&db, "A");
    assert_eq!(g.node_count(), 2);
    assert_eq!(g.edge_count(), 2);
    assert_eq!(g.get_node("A").unwrap().calls.len(), 2);
}

#[test]
fn building_twice_gives_the_same_graph() {
    let db = db_of(vec![
        def("main", &["a", "b", "a"]),
        def("a", &["c"]),
        def("b", &["c", "ext"]),
        def("c", &["main"]),
    ]);
    let g1 = CallGraph::build(&db, "main");
    let g2 = CallGraph::build(&db, "main");
    assert_eq!(sorted_names(&g1), sorted_names(&g2));
    assert_eq!(sorted_edges(&g1), sorted_edges(&g2));
    assert_eq!(g1.node_count(), 5);
    assert_eq!(g1.edge_count(), 7);
}

#[test]
fn topological_order_puts_callers_first() {
    let db = db_of(vec![def("main", &["a", "b"]), def("a", &["c"]), def("b", &["c"]), def("c", &[])]);
    let g = CallGraph::build(&db, "main");
    let order = g.topological_order();
    assert_eq!(order, vec!["main", "b", "a", "c"]);
}

#[test]
fn topological_order_with_self_call() {
    let db = db_of(vec![def("main", &["main", "a"]), def("a", &[])]);
    let g = CallGraph::build(&db, "main");
    assert_eq!(g.topological_order(), vec!["main", "a"]);
}

#[test]
fn entry_node_comes_first_in_discovery_order() {
    let db = db_of(vec![def("main", &["z", "y"]), def("z", &["x"]), def("y", &[])]);
    let g = CallGraph::build(&db, "main");
    let names: Vec<String> = g.iter_nodes().iter().map(|(n, _)| (*n).clone()).collect();
    assert_eq!(names, vec!["main", "z", "y", "x"]);
}

#[test]
fn node_keeps_definition_and_calls() {
    let db = db_of(vec![def_with("main", "/src/main.c", true, vec![call_at("f", 1, CallContext::Loop, 1)])]);
    let g = CallGraph::build(&db, "main");
    let n = g.get_node("main").unwrap();
    assert_eq!(n.function.source_file, "/src/main.c");
    assert!(n.function.is_static);
    assert_eq!(n.function.signature.args.len(), 1);
    assert_eq!(n.calls[0].context, CallContext::Loop);
}
