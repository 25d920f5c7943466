use callgraph::call_graph::CallGraph;
use callgraph::function_db::{CallContext, CallInfo, Definition, FunctionDatabase, Signature};
use callgraph::front_end::{extract_clang_compatible_flags, join_tokens, parser_arguments};

fn strings(v: &[&str]) -> Vec<String> {
    v.iter().map(|s| s.to_string()).collect()
}

#[test]
fn keeps_only_defines_and_includes() {
    let args = strings(&["-DDEBUG", "-O2", "-Iinclude", "-mcpu=cortex-m4", "-D", "main.c", "-I", "-x"]);
    assert_eq!(extract_clang_compatible_flags(&args), strings(&["-DDEBUG", "-Iinclude", "-D", "-I"]));
    assert!(extract_clang_compatible_flags(&[]).is_empty());
}

#[test]
fn parser_arguments_skip_compiler_and_add_limits() {
    let cmd = strings(&["-Dcc", "-DX=1", "-c", "-Isrc"]);
    assert_eq!(parser_arguments(&cmd), strings(&["-DX=1", "-Isrc", "-ferror-limit=0", "-Wno-everything"]));
    assert_eq!(parser_arguments(&[]), strings(&["-ferror-limit=0", "-Wno-everything"]));
}

#[test]
fn tokens_joined_by_single_spaces() {
    assert_eq!(join_tokens(&strings(&["{", "return", "0", ";", "}"])), "{ return 0 ; }");
    assert_eq!(join_tokens(&strings(&["x"])), "x");
    assert_eq!(join_tokens(&vec![]), "");
}

#[test]
fn summary_counts() {
    let mut db = FunctionDatabase::new();
    let call = |n: &str, o: u32| CallInfo {
        function_name: n.to_string(),
        line: 1,
        column: 1,
        order: o,
        context: CallContext::Sequential,
        context_depth: 0,
    };
    let sig = |n: &str| Signature { name: n.to_string(), return_type: "int".to_string(), args: vec![], is_variadic: false };
    db.add_function(Definition {
        signature: sig("main"),
        body: String::new(),
        source_file: "m.c".to_string(),
        is_static: false,
        calls: vec![call("helper", 1), call("puts", 2), call("exit", 3)],
    });
    db.add_function(Definition {
        signature: sig("helper"),
        body: String::new(),
        source_file: "m.c".to_string(),
        is_static: true,
        calls: vec![],
    });
    let g = CallGraph::build(&db, "main");
    assert_eq!(g.external_count(), 2);
    assert_eq!(g.static_count(), 1);
}
