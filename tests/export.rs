use callgraph::call_graph::CallGraph;
use callgraph::function_db::{CallContext, CallInfo, Definition, FunctionDatabase, Signature};
use callgraph::text::sanitize_id;

fn call_at(name: &str, order: u32, context: CallContext) -> CallInfo {
    CallInfo { function_name: name.to_string(), line: 1, column: 1, order, context, context_depth: 0 }
}

fn def_with(name: &str, file: &str, is_static: bool, calls: Vec<CallInfo>) -> Definition {
    Definition {
        signature: Signature { name: name.to_string(), return_type: "void".to_string(), args: vec![], is_variadic: false },
        body: String::new(),
        source_file: file.to_string(),
        is_static,
        calls,
    }
}

fn sample() -> CallGraph {
    let mut db = FunctionDatabase::new();
    db.add_function(def_with(
        "main",
        "/src/main.c",
        false,
        vec![call_at("helper", 1, CallContext::Sequential), call_at("ext", 2, CallContext::Conditional { branch_id: 1 })],
    ));
    db.add_function(def_with("helper", "/src/util/helper.c", true, vec![]));
    CallGraph::build(&db, "main")
}

#[test]
fn whole_graph_description() {
    let expected = r##"digraph CallGraph {
    rankdir=TB;
    splines=ortho;
    nodesep=0.5;
    ranksep=0.8;
    fontname="Helvetica";
    node [shape=box, fontname="Helvetica", fontsize=10];
    edge [fontsize=8];

    main [label="main\nmain.c", fillcolor="#90EE90", style=filled];
    helper [label="helper\nhelper.c", fillcolor="#FFFACD", style=filled];
    ext [label="ext\n(external)", fillcolor="#D3D3D3", style="filled,dashed"];

    main -> helper [label="1", color="#333333"];
    main -> ext [label="2:if1", color="#FF6B6B", style=dashed];
}
"##;
    assert_eq!(sample().to_dot(), expected);
}

#[test]
fn declaration_lines_match_counts() {
    let mut db = FunctionDatabase::new();
    db.add_function(def_with(
        "main",
        "m.c",
        false,
        vec![
            call_at("a", 1, CallContext::Sequential),
            call_at("a", 2, CallContext::Loop),
            call_at("b", 3, CallContext::Switch { case_id: 1 }),
        ],
    ));
    db.add_function(def_with("a", "a.c", false, vec![call_at("b", 1, CallContext::Sequential)]));
    let g = CallGraph::build(&db, "main");
    let text = g.to_dot();
    let edges = text.lines().filter(|l| l.contains(" -> ")).count();
    let nodes = text.lines().filter(|l| l.starts_with("    ") && l.contains("[label=") && !l.contains(" -> ")).count();
    assert_eq!(nodes, g.node_count());
    assert_eq!(edges, g.edge_count());
    assert_eq!(nodes, 3);
    assert_eq!(edges, 4);
}

#[test]
fn edge_labels_and_styles_by_context() {
    let mut db = FunctionDatabase::new();
    db.add_function(def_with(
        "f",
        "f.c",
        false,
        vec![call_at("g", 7, CallContext::Loop), call_at("h", 12, CallContext::Switch { case_id: 3 })],
    ));
    db.add_function(def_with("g", "g.c", false, vec![]));
    db.add_function(def_with("h", "", false, vec![]));
    let text = CallGraph::build(&db, "f").to_dot();
    assert!(text.contains("    f -> g [label=\"7:loop\", color=\"#4ECDC4\", style=bold];\n"));
    assert!(text.contains("    f -> h [label=\"12:case3\", color=\"#9B59B6\"];\n"));
    assert!(text.contains("    g [label=\"g\\ng.c\", fillcolor=\"#E6F3FF\", style=filled];\n"));
    assert!(text.contains("    h [label=\"h\\n?\", fillcolor=\"#E6F3FF\", style=filled];\n"));
}

#[test]
fn single_function_view() {
    let mut db = FunctionDatabase::new();
    db.add_function(def_with(
        "f",
        "f.c",
        false,
        vec![
            call_at("a", 3, CallContext::Sequential),
            call_at("b", 1, CallContext::Conditional { branch_id: 2 }),
            call_at("c", 2, CallContext::Loop),
            call_at("d", 4, CallContext::Switch { case_id: 1 }),
            call_at("e", 5, CallContext::Conditional { branch_id: 2 }),
        ],
    ));
    let g = CallGraph::build(&db, "f");
    let expected = r##"digraph f {
    rankdir=TB;
    splines=ortho;
    node [shape=box, fontname="Helvetica"];

    f [label="f", fillcolor="#90EE90", style=filled];
    subgraph cluster_if2 {
        label="Branch 2";
        style=dashed;
        color="#FF6B6B";
        b_1 [label="b"];
        e_5 [label="e"];
    }
    subgraph cluster_loop {
        label="Loop";
        style=bold;
        color="#4ECDC4";
        c_2 [label="c"];
    }
    subgraph cluster_case1 {
        label="Case 1";
        style=solid;
        color="#9B59B6";
        d_4 [label="d"];
    }
    a_3 [label="a"];

    f -> b_1 [label="1"];
    b_1 -> c_2 [label="2"];
    c_2 -> a_3 [label="3"];
    a_3 -> d_4 [label="4"];
    d_4 -> e_5 [label="5"];
}
"##;
    assert_eq!(g.to_dot_for_function("f").unwrap(), expected);
    assert!(g.to_dot_for_function("nothere").is_none());
}

#[test]
fn single_function_view_of_external_node() {
    let g = CallGraph::build(&FunctionDatabase::new(), "ext.fn");
    let expected = "digraph ext_fn {\n    rankdir=TB;\n    splines=ortho;\n    node [shape=box, fontname=\"Helvetica\"];\n\n    ext_fn [label=\"ext.fn\", fillcolor=\"#90EE90\", style=filled];\n\n}\n";
    assert_eq!(g.to_dot_for_function("ext.fn").unwrap(), expected);
}

#[test]
fn ids_replace_other_characters() {
    assert_eq!(sanitize_id("foo.bar-baz"), "foo_bar_baz");
    assert_eq!(sanitize_id("a b"), "a_b");
    assert_eq!(sanitize_id("näme_1"), "näme_1");
    assert_eq!(sanitize_id(""), "");
}

#[test]
fn basenames_given_by_caller() {
    let g = sample();
    let text = g.to_dot_with_basenames(&vec![Some("M".to_string()), None, None]);
    assert!(text.contains("    main [label=\"main\\nM\", fillcolor=\"#90EE90\", style=filled];\n"));
    assert!(text.contains("    helper [label=\"helper\\n?\", fillcolor=\"#FFFACD\", style=filled];\n"));
}
