use callgraph::function_db::{CallContext, CallInfo};
use callgraph::tracker::{collect_calls, collect_calls_recursive, CallCollector, NodeKind, StmtNode};

fn node(kind: NodeKind, children: Vec<StmtNode>) -> StmtNode {
    StmtNode { kind, callee: None, line: 0, column: 0, children }
}

fn call(name: &str, line: u32) -> StmtNode {
    StmtNode { kind: NodeKind::CallExpr, callee: Some(name.to_string()), line, column: 5, children: vec![] }
}

fn block(children: Vec<StmtNode>) -> StmtNode {
    node(NodeKind::CompoundStmt, children)
}

fn names(calls: &[CallInfo]) -> Vec<String> {
    calls.iter().map(|c| c.function_name.clone()).collect()
}

#[test]
fn orders_run_from_one_in_visit_order() {
    let body = block(vec![
        call("a", 1),
        node(NodeKind::IfStmt, vec![call("b", 2), block(vec![call("c", 3)]), block(vec![call("d", 4)])]),
        node(NodeKind::WhileStmt, vec![call("e", 5), block(vec![call("f", 6)])]),
    ]);
    let calls = collect_calls(&body);
    assert_eq!(names(&calls), vec!["a", "b", "c", "d", "e", "f"]);
    let orders: Vec<u32> = calls.iter().map(|c| c.order).collect();
    assert_eq!(orders, vec![1, 2, 3, 4, 5, 6]);
    assert_eq!(calls[0].context, CallContext::Sequential);
    assert_eq!(calls[1].context, CallContext::Sequential);
    assert_eq!(calls[2].context, CallContext::Conditional { branch_id: 1 });
    assert_eq!(calls[3].context, CallContext::Conditional { branch_id: 2 });
    assert_eq!(calls[4].context, CallContext::Loop);
    assert_eq!(calls[5].context, CallContext::Loop);
    assert_eq!(calls[2].line, 3);
    assert_eq!(calls[2].column, 5);
}

#[test]
fn depth_counts_enclosing_frames() {
    let body = block(vec![
        call("top", 1),
        node(
            NodeKind::ForStmt,
            vec![block(vec![node(
                NodeKind::IfStmt,
                vec![call("cond", 2), block(vec![node(NodeKind::DoStmt, vec![block(vec![call("deep", 3)])])])],
            )])],
        ),
    ]);
    let calls = collect_calls(&body);
    assert_eq!(names(&calls), vec!["top", "cond", "deep"]);
    assert_eq!(calls[0].context_depth, 0);
    assert_eq!(calls[1].context_depth, 1);
    assert_eq!(calls[1].context, CallContext::Loop);
    assert_eq!(calls[2].context_depth, 3);
    assert_eq!(calls[2].context, CallContext::Loop);
}

#[test]
fn then_and_else_get_distinct_branch_ids() {
    let body = block(vec![
        node(NodeKind::IfStmt, vec![block(vec![]), block(vec![call("t1", 1)]), block(vec![call("e1", 2)])]),
        node(NodeKind::IfStmt, vec![block(vec![]), block(vec![call("t2", 3)]), block(vec![call("e2", 4)])]),
    ]);
    let calls = collect_calls(&body);
    let ids: Vec<CallContext> = calls.iter().map(|c| c.context).collect();
    assert_eq!(
        ids,
        vec![
            CallContext::Conditional { branch_id: 1 },
            CallContext::Conditional { branch_id: 2 },
            CallContext::Conditional { branch_id: 3 },
            CallContext::Conditional { branch_id: 4 },
        ]
    );
}

#[test]
fn nested_branch_returns_to_outer_id() {
    let inner = node(NodeKind::IfStmt, vec![block(vec![]), block(vec![call("x", 2)])]);
    let body = block(vec![node(NodeKind::IfStmt, vec![block(vec![]), block(vec![inner, call("y", 3)])])]);
    let calls = collect_calls(&body);
    assert_eq!(names(&calls), vec!["x", "y"]);
    assert_eq!(calls[0].context, CallContext::Conditional { branch_id: 2 });
    assert_eq!(calls[0].context_depth, 2);
    assert_eq!(calls[1].context, CallContext::Conditional { branch_id: 1 });
    assert_eq!(calls[1].context_depth, 1);
}

#[test]
fn switch_cases_get_distinct_case_ids() {
    let body = block(vec![node(
        NodeKind::SwitchStmt,
        vec![
            call("sel", 1),
            block(vec![
                node(NodeKind::CaseStmt, vec![call("p", 2)]),
                node(NodeKind::DefaultStmt, vec![call("q", 3)]),
            ]),
        ],
    )]);
    let calls = collect_calls(&body);
    assert_eq!(names(&calls), vec!["sel", "p", "q"]);
    assert_eq!(calls[0].context, CallContext::Sequential);
    assert_eq!(calls[0].context_depth, 0);
    assert_eq!(calls[1].context, CallContext::Switch { case_id: 1 });
    assert_eq!(calls[2].context, CallContext::Switch { case_id: 2 });
    assert_eq!(calls[2].context_depth, 1);
}

#[test]
fn call_through_pointer_records_nothing() {
    let indirect = StmtNode { kind: NodeKind::CallExpr, callee: None, line: 4, column: 1, children: vec![call("arg", 4)] };
    let body = block(vec![indirect]);
    let calls = collect_calls(&body);
    assert_eq!(names(&calls), vec!["arg"]);
    assert_eq!(calls[0].order, 1);

    let alone = block(vec![StmtNode { kind: NodeKind::CallExpr, callee: None, line: 1, column: 1, children: vec![] }]);
    assert!(collect_calls(&alone).is_empty());
}

#[test]
fn empty_body_has_no_calls() {
    assert!(collect_calls(&block(vec![])).is_empty());
}

#[test]
fn collector_tracks_context_stack() {
    let mut c = CallCollector::new();
    assert_eq!(c.current_context(), CallContext::Sequential);
    assert_eq!(c.depth(), 0);
    c.push_conditional();
    c.push_loop();
    assert_eq!(c.current_context(), CallContext::Loop);
    assert_eq!(c.depth(), 2);
    c.add_call("f".to_string(), 7, 9);
    c.pop_context();
    assert_eq!(c.current_context(), CallContext::Conditional { branch_id: 1 });
    c.pop_context();
    c.push_switch_case();
    c.add_call("g".to_string(), 8, 1);
    assert_eq!(c.calls.len(), 2);
    assert_eq!(c.calls[0].order, 1);
    assert_eq!(c.calls[0].context, CallContext::Loop);
    assert_eq!(c.calls[0].context_depth, 2);
    assert_eq!(c.calls[1].order, 2);
    assert_eq!(c.calls[1].context, CallContext::Switch { case_id: 1 });
}

#[test]
fn walk_continues_from_collector_state() {
    let mut c = CallCollector::new();
    c.add_call("first".to_string(), 1, 1);
    collect_calls_recursive(&node(NodeKind::IfStmt, vec![block(vec![]), call("then", 2)]), &mut c);
    assert_eq!(c.calls.len(), 2);
    assert_eq!(c.calls[1].order, 2);
    assert_eq!(c.calls[1].context, CallContext::Conditional { branch_id: 1 });
    assert!(c.context_stack.is_empty());
}
