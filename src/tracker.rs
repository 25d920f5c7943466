use vstd::prelude::*;
use crate::function_db::{CallContext, CallInfo};

verus! {

broadcast use vstd::std_specs::vec::group_vec_axioms;

/// The kinds of statement-tree node that call classification distinguishes.
#[derive(Debug, Clone, Copy, PartialEq, Eq, Structural, Hash)]
pub enum NodeKind {
    FunctionDecl,
    CallExpr,
    IfStmt,
    WhileStmt,
    ForStmt,
    DoStmt,
    SwitchStmt,
    CaseStmt,
    DefaultStmt,
    CompoundStmt,
    Other,
}

/// A front-end independent view of one node of a function body.
///
/// For a `CallExpr`, `callee` is the name of the called function when it
/// resolves to one (it is `None` for a call through a pointer).
#[derive(Debug)]
pub struct StmtNode {
    pub kind: NodeKind,
    pub callee: Option<String>,
    pub line: u32,
    pub column: u32,
    pub children: Vec<StmtNode>,
}

/// The state of a walk over one function body, as a mathematical value.
pub struct WalkState {
    pub calls: Seq<CallInfo>,
    pub order: nat,
    pub stack: Seq<CallContext>,
    pub branches: nat,
    pub cases: nat,
}

/// The context that a call visited in state `s` is recorded with.
pub open spec fn top_context(stack: Seq<CallContext>) -> CallContext {
    if stack.len() == 0 {
        CallContext::Sequential
    } else {
        stack.last()
    }
}

pub open spec fn push_conditional(s: WalkState) -> WalkState {
    WalkState {
        stack: s.stack.push(CallContext::Conditional { branch_id: (s.branches + 1) as u32 }),
        branches: s.branches + 1,
        ..s
    }
}

pub open spec fn push_loop(s: WalkState) -> WalkState {
    WalkState { stack: s.stack.push(CallContext::Loop), ..s }
}

pub open spec fn push_case(s: WalkState) -> WalkState {
    WalkState {
        stack: s.stack.push(CallContext::Switch { case_id: (s.cases + 1) as u32 }),
        cases: s.cases + 1,
        ..s
    }
}

pub open spec fn pop(s: WalkState) -> WalkState {
    WalkState { stack: s.stack.drop_last(), ..s }
}

/// The call record for a call to `name` at (`line`, `column`), visited in state `s`.
pub open spec fn call_record(s: WalkState, name: String, line: u32, column: u32) -> CallInfo {
    CallInfo {
        function_name: name,
        line,
        column,
        order: (s.order + 1) as u32,
        context: top_context(s.stack),
        context_depth: s.stack.len() as u32,
    }
}

/// Visiting a call node: a call with a resolvable callee is recorded, any other is not.
pub open spec fn visit_call(s: WalkState, n: StmtNode) -> WalkState {
    match n.callee {
        Some(name) => WalkState {
            calls: s.calls.push(call_record(s, name, n.line, n.column)),
            order: s.order + 1,
            ..s
        },
        None => s,
    }
}

/// The depth-first walk of node `n` from state `s`.
pub open spec fn walk(n: StmtNode, s: WalkState) -> WalkState
    decreases n, n.children@.len() + 1,
{
    let ch = n.children@;
    match n.kind {
        NodeKind::IfStmt => {
            let s1 = if ch.len() > 0 { walk(ch[0], s) } else { s };
            let s2 = if ch.len() > 1 { pop(walk(ch[1], push_conditional(s1))) } else { s1 };
            if ch.len() > 2 { pop(walk(ch[2], push_conditional(s2))) } else { s2 }
        },
        NodeKind::WhileStmt | NodeKind::ForStmt | NodeKind::DoStmt => {
            pop(walk_children(n, 0, push_loop(s)))
        },
        NodeKind::CaseStmt | NodeKind::DefaultStmt => {
            pop(walk_children(n, 0, push_case(s)))
        },
        NodeKind::CallExpr => walk_children(n, 0, visit_call(s, n)),
        _ => walk_children(n, 0, s),
    }
}

/// Walks the children of `n` from index `i` on, in order.
pub open spec fn walk_children(n: StmtNode, i: int, s: WalkState) -> WalkState
    decreases n, n.children@.len() - i,
{
    if 0 <= i < n.children@.len() {
        walk_children(n, i + 1, walk(n.children@[i], s))
    } else {
        s
    }
}

/// The number of nodes in the tree rooted at `n`.
pub open spec fn size(n: StmtNode) -> nat
    decreases n, n.children@.len() + 1,
{
    1 + size_children(n, 0)
}

pub open spec fn size_children(n: StmtNode, i: int) -> nat
    decreases n, n.children@.len() - i,
{
    if 0 <= i < n.children@.len() {
        size(n.children@[i]) + size_children(n, i + 1)
    } else {
        0
    }
}

/// The walk state that a fresh function body starts from.
pub open spec fn initial_state() -> WalkState {
    WalkState { calls: Seq::empty(), order: 0, stack: Seq::empty(), branches: 0, cases: 0 }
}

/// Whether counters that start at `s` stay within `u32` over `k` more nodes.
pub open spec fn room_for(s: WalkState, k: nat) -> bool {
    &&& s.order + k <= u32::MAX
    &&& s.branches + 2 * k <= u32::MAX
    &&& s.cases + k <= u32::MAX
    &&& s.stack.len() + k <= u32::MAX
}

/// Tracks the current control-flow context while a function body is walked.
pub struct CallCollector {
    pub calls: Vec<CallInfo>,
    pub order_counter: u32,
    pub context_stack: Vec<CallContext>,
    pub branch_counter: u32,
    pub case_counter: u32,
}

impl CallCollector {
    pub open spec fn view(&self) -> WalkState {
        WalkState {
            calls: self.calls@,
            order: self.order_counter as nat,
            stack: self.context_stack@,
            branches: self.branch_counter as nat,
            cases: self.case_counter as nat,
        }
    }

    pub fn new() -> (r: CallCollector)
        ensures
            r.view() == initial_state(),
    {
        CallCollector {
            calls: Vec::new(),
            order_counter: 0,
            context_stack: Vec::new(),
            branch_counter: 0,
            case_counter: 0,
        }
    }

    pub fn current_context(&self) -> (r: CallContext)
        ensures
            r == top_context(self.context_stack@),
    {
        let n = self.context_stack.len();
        if n == 0 {
            CallContext::Sequential
        } else {
            self.context_stack[n - 1]
        }
    }

    pub fn depth(&self) -> (r: u32)
        requires
            self.context_stack@.len() <= u32::MAX,
        ensures
            r == self.context_stack@.len(),
    {
        self.context_stack.len() as u32
    }

    pub fn push_conditional(&mut self)
        requires
            old(self).branch_counter < u32::MAX,
        ensures
            final(self).view() == push_conditional(old(self).view()),
    {
        self.branch_counter = self.branch_counter + 1;
        self.context_stack.push(CallContext::Conditional { branch_id: self.branch_counter });
    }

    pub fn push_loop(&mut self)
        ensures
            final(self).view() == push_loop(old(self).view()),
    {
        self.context_stack.push(CallContext::Loop);
    }

    pub fn push_switch_case(&mut self)
        requires
            old(self).case_counter < u32::MAX,
        ensures
            final(self).view() == push_case(old(self).view()),
    {
        self.case_counter = self.case_counter + 1;
        self.context_stack.push(CallContext::Switch { case_id: self.case_counter });
    }

    pub fn pop_context(&mut self)
        requires
            old(self).context_stack@.len() > 0,
        ensures
            final(self).view() == pop(old(self).view()),
    {
        self.context_stack.pop();
    }

    pub fn add_call(&mut self, function_name: String, line: u32, column: u32)
        requires
            old(self).order_counter < u32::MAX,
            old(self).context_stack@.len() <= u32::MAX,
        ensures
            final(self).view() == (WalkState {
                calls: old(self).view().calls.push(
                    call_record(old(self).view(), function_name, line, column),
                ),
                order: old(self).view().order + 1,
                ..old(self).view()
            }),
    {
        let context = self.current_context();
        let context_depth = self.depth();
        self.order_counter = self.order_counter + 1;
        self.calls.push(
            CallInfo { function_name, line, column, order: self.order_counter, context, context_depth },
        );
    }
}

/// Walks `node` depth first, recording each named call with its order,
/// enclosing context and nesting depth.
pub fn collect_calls_recursive(node: &StmtNode, collector: &mut CallCollector)
    requires
        room_for(old(collector).view(), size(*node)),
    ensures
        final(collector).view() == walk(*node, old(collector).view()),
        final(collector).context_stack@ == old(collector).context_stack@,
        final(collector).order_counter <= old(collector).order_counter + size(*node),
        final(collector).branch_counter <= old(collector).branch_counter + 2 * size(*node),
        final(collector).case_counter <= old(collector).case_counter + size(*node),
    decreases node,
{
    let ghost s0 = collector.view();
    let nch = node.children.len();
    match node.kind {
        NodeKind::IfStmt => {
            assert(size(*node) == 1 + size_children(*node, 0));
            if nch > 0 {
                assert(size_children(*node, 0) == size(node.children@[0]) + size_children(*node, 1));
                collect_calls_recursive(&node.children[0], collector);
            }
            let ghost s1 = collector.view();
            if nch > 1 {
                assert(size_children(*node, 1) == size(node.children@[1]) + size_children(*node, 2));
                collector.push_conditional();
                collect_calls_recursive(&node.children[1], collector);
                collector.pop_context();
            }
            let ghost s2 = collector.view();
            if nch > 2 {
                assert(size_children(*node, 2) == size(node.children@[2]) + size_children(*node, 3));
                collector.push_conditional();
                collect_calls_recursive(&node.children[2], collector);
                collector.pop_context();
            }
            assert(collector.context_stack@ =~= s0.stack);
        },
        NodeKind::WhileStmt | NodeKind::ForStmt | NodeKind::DoStmt => {
            collector.push_loop();
            collect_children(node, collector);
            collector.pop_context();
            assert(collector.context_stack@ =~= s0.stack);
        },
        NodeKind::CaseStmt | NodeKind::DefaultStmt => {
            collector.push_switch_case();
            collect_children(node, collector);
            collector.pop_context();
            assert(collector.context_stack@ =~= s0.stack);
        },
        NodeKind::CallExpr => {
            match &node.callee {
                Some(name) => {
                    collector.add_call(name.clone(), node.line, node.column);
                },
                None => {},
            }
            assert(collector.view() == visit_call(s0, *node));
            collect_children(node, collector);
        },
        _ => {
            collect_children(node, collector);
        },
    }
}

/// Walks the children of `node` in order under the collector's current context.
fn collect_children(node: &StmtNode, collector: &mut CallCollector)
    requires
        room_for(old(collector).view(), size_children(*node, 0)),
    ensures
        final(collector).view() == walk_children(*node, 0, old(collector).view()),
        final(collector).context_stack@ == old(collector).context_stack@,
        final(collector).order_counter <= old(collector).order_counter + size_children(*node, 0),
        final(collector).branch_counter <= old(collector).branch_counter + 2 * size_children(
            *node,
            0,
        ),
        final(collector).case_counter <= old(collector).case_counter + size_children(*node, 0),
    decreases node, 0nat,
{
    let ghost s0 = collector.view();
    let mut i: usize = 0;
    while i < node.children.len()
        invariant
            i <= node.children@.len(),
            walk_children(*node, i as int, collector.view()) == walk_children(*node, 0, s0),
            collector.context_stack@ == s0.stack,
            collector.order_counter + size_children(*node, i as int) <= s0.order + size_children(*node, 0),
            collector.branch_counter + 2 * size_children(*node, i as int) <= s0.branches + 2
                * size_children(*node, 0),
            collector.case_counter + size_children(*node, i as int) <= s0.cases + size_children(*node, 0),
            room_for(s0, size_children(*node, 0)),
            size_children(*node, i as int) <= size_children(*node, 0),
        decreases node.children@.len() - i,
    {
        assert(size_children(*node, i as int) == size(node.children@[i as int]) + size_children(
            *node,
            i as int + 1,
        ));
        collect_calls_recursive(&node.children[i], collector);
        i = i + 1;
    }
}

/// The ordered, context-labelled call sites of a function body.
pub fn collect_calls(body: &StmtNode) -> (r: Vec<CallInfo>)
    requires
        room_for(initial_state(), size(*body)),
    ensures
        r@ == walk(*body, initial_state()).calls,
{
    let mut collector = CallCollector::new();
    collect_calls_recursive(body, &mut collector);
    collector.calls
}

/// The named call sites of the tree rooted at `n`, in depth-first order, each
/// with the number of if-branch, loop and case frames that enclose it (`d` of
/// them enclose `n` itself).
pub open spec fn sites(n: StmtNode, d: nat) -> Seq<(String, nat)>
    decreases n, n.children@.len() + 1,
{
    let ch = n.children@;
    match n.kind {
        NodeKind::IfStmt => {
            (if ch.len() > 0 { sites(ch[0], d) } else { Seq::empty() }) + (if ch.len() > 1 {
                sites(ch[1], d + 1)
            } else {
                Seq::empty()
            }) + (if ch.len() > 2 { sites(ch[2], d + 1) } else { Seq::empty() })
        },
        NodeKind::WhileStmt | NodeKind::ForStmt | NodeKind::DoStmt | NodeKind::CaseStmt
        | NodeKind::DefaultStmt => sites_children(n, 0, d + 1),
        NodeKind::CallExpr => {
            match n.callee {
                Some(name) => seq![(name, d)] + sites_children(n, 0, d),
                None => sites_children(n, 0, d),
            }
        },
        _ => sites_children(n, 0, d),
    }
}

pub open spec fn sites_children(n: StmtNode, i: int, d: nat) -> Seq<(String, nat)>
    decreases n, n.children@.len() - i,
{
    if 0 <= i < n.children@.len() {
        sites(n.children@[i], d) + sites_children(n, i + 1, d)
    } else {
        Seq::empty()
    }
}

/// Each call record reduced to its callee and its nesting depth.
pub open spec fn depths(calls: Seq<CallInfo>) -> Seq<(String, nat)> {
    calls.map_values(|c: CallInfo| (c.function_name, c.context_depth as nat))
}

/// The contexts that a call recorded by a walk from `s` to `r` may carry: the
/// context in force when the walk began, a loop, or a branch or case whose id
/// was handed out during the walk.
pub open spec fn fresh_context(c: CallContext, s: WalkState, r: WalkState) -> bool {
    ||| c == top_context(s.stack)
    ||| c is Loop
    ||| (c matches CallContext::Conditional { branch_id } && s.branches < branch_id
        <= r.branches)
    ||| (c matches CallContext::Switch { case_id } && s.cases < case_id <= r.cases)
}

/// What a walk from `s` to `r` does: it restores the context stack, moves the
/// order, branch and case counters forward by at most `ko`, `kb` and `kc`,
/// appends one record per named call with contiguous orders and fresh contexts,
/// and contributes the call sites `st`.
pub open spec fn walk_facts(
    s: WalkState,
    r: WalkState,
    ko: nat,
    kb: nat,
    kc: nat,
    st: Seq<(String, nat)>,
) -> bool {
    &&& r.stack == s.stack
    &&& s.order <= r.order <= s.order + ko
    &&& s.branches <= r.branches <= s.branches + kb
    &&& s.cases <= r.cases <= s.cases + kc
    &&& r.calls.len() == s.calls.len() + (r.order - s.order)
    &&& r.calls.subrange(0, s.calls.len() as int) == s.calls
    &&& forall|i: int|
        s.calls.len() <= i < r.calls.len() ==> #[trigger] r.calls[i].order == i - s.calls.len()
            + s.order + 1
    &&& forall|i: int|
        s.calls.len() <= i < r.calls.len() ==> fresh_context(#[trigger] r.calls[i].context, s, r)
    &&& depths(r.calls) == depths(s.calls) + st
}

proof fn lemma_facts_refl(s: WalkState)
    ensures
        walk_facts(s, s, 0, 0, 0, Seq::empty()),
{
    assert(s.calls.subrange(0, s.calls.len() as int) =~= s.calls);
    assert(depths(s.calls) + Seq::<(String, nat)>::empty() =~= depths(s.calls));
}

proof fn lemma_facts_compose(
    s: WalkState,
    m: WalkState,
    r: WalkState,
    ko1: nat,
    kb1: nat,
    kc1: nat,
    st1: Seq<(String, nat)>,
    ko2: nat,
    kb2: nat,
    kc2: nat,
    st2: Seq<(String, nat)>,
)
    requires
        walk_facts(s, m, ko1, kb1, kc1, st1),
        walk_facts(m, r, ko2, kb2, kc2, st2),
    ensures
        walk_facts(s, r, ko1 + ko2, kb1 + kb2, kc1 + kc2, st1 + st2),
{
    assert(r.calls.subrange(0, s.calls.len() as int) =~= r.calls.subrange(
        0,
        m.calls.len() as int,
    ).subrange(0, s.calls.len() as int));
    assert forall|i: int| s.calls.len() <= i < r.calls.len() implies fresh_context(
        #[trigger] r.calls[i].context,
        s,
        r,
    ) by {
        if i < m.calls.len() {
            assert(r.calls[i] == r.calls.subrange(0, m.calls.len() as int)[i]);
            assert(fresh_context(m.calls[i].context, s, m));
        } else {
            assert(fresh_context(r.calls[i].context, m, r));
        }
    }
    assert(depths(r.calls) =~= depths(s.calls) + (st1 + st2));
    assert forall|i: int| s.calls.len() <= i < r.calls.len() implies #[trigger] r.calls[i].order
        == i - s.calls.len() + s.order + 1 by {
        if i < m.calls.len() {
            assert(r.calls[i] == r.calls.subrange(0, m.calls.len() as int)[i]);
            assert(m.calls[i].order == i - s.calls.len() + s.order + 1);
        } else {
            assert(r.calls[i].order == i - m.calls.len() + m.order + 1);
        }
    }
}

/// A walk under a frame pushed on entry and popped on exit.
proof fn lemma_facts_frame(
    s: WalkState,
    t: WalkState,
    r: WalkState,
    ko: nat,
    kb: nat,
    kc: nat,
    st: Seq<(String, nat)>,
)
    requires
        t == push_conditional(s) || t == push_loop(s) || t == push_case(s),
        walk_facts(t, r, ko, kb, kc, st),
        s.branches < u32::MAX,
        s.cases < u32::MAX,
    ensures
        t == push_conditional(s) ==> walk_facts(s, pop(r), ko, kb + 1, kc, st),
        t == push_loop(s) ==> walk_facts(s, pop(r), ko, kb, kc, st),
        t == push_case(s) ==> walk_facts(s, pop(r), ko, kb, kc + 1, st),
{
    assert(pop(r).stack =~= s.stack);
    assert forall|i: int| s.calls.len() <= i < r.calls.len() implies fresh_context(
        #[trigger] pop(r).calls[i].context,
        s,
        pop(r),
    ) by {
        assert(fresh_context(r.calls[i].context, t, r));
        assert(top_context(t.stack) == t.stack.last());
    }
}

/// Visiting a call node records at most that one call.
proof fn lemma_facts_visit(n: StmtNode, s: WalkState)
    requires
        s.order < u32::MAX,
        s.stack.len() <= u32::MAX,
    ensures
        walk_facts(
            s,
            visit_call(s, n),
            1,
            0,
            0,
            match n.callee {
                Some(name) => seq![(name, s.stack.len())],
                None => Seq::empty(),
            },
        ),
{
    match n.callee {
        Some(name) => {
            let r = visit_call(s, n);
            assert(r.calls.subrange(0, s.calls.len() as int) =~= s.calls);
            assert(depths(r.calls) =~= depths(s.calls) + seq![(name, s.stack.len())]);
        },
        None => {
            lemma_facts_refl(s);
        },
    }
}

/// Properties of the walk over `n` from `s`, by induction over the tree.
proof fn lemma_walk(n: StmtNode, s: WalkState)
    requires
        room_for(s, size(n)),
    ensures
        walk_facts(s, walk(n, s), size(n), 2 * size(n), size(n), sites(n, s.stack.len())),
    decreases n, n.children@.len() + 1,
{
    let ch = n.children@;
    let d = s.stack.len();
    let e: Seq<(String, nat)> = Seq::empty();
    assert(size(n) == 1 + size_children(n, 0));
    match n.kind {
        NodeKind::IfStmt => {
            let k0 = if ch.len() > 0 { size(ch[0]) } else { 0 };
            let k1 = if ch.len() > 1 { size(ch[1]) } else { 0 };
            let k2 = if ch.len() > 2 { size(ch[2]) } else { 0 };
            if ch.len() > 0 {
                assert(size_children(n, 0) == size(ch[0]) + size_children(n, 1));
            }
            if ch.len() > 1 {
                assert(size_children(n, 1) == size(ch[1]) + size_children(n, 2));
            }
            if ch.len() > 2 {
                assert(size_children(n, 2) == size(ch[2]) + size_children(n, 3));
            }
            assert(k0 + k1 + k2 <= size_children(n, 0));
            let st0 = if ch.len() > 0 { sites(ch[0], d) } else { e };
            let st1 = if ch.len() > 1 { sites(ch[1], d + 1) } else { e };
            let st2 = if ch.len() > 2 { sites(ch[2], d + 1) } else { e };
            let s1 = if ch.len() > 0 { walk(ch[0], s) } else { s };
            if ch.len() > 0 {
                lemma_walk(ch[0], s);
            } else {
                lemma_facts_refl(s);
            }
            assert(walk_facts(s, s1, k0, 2 * k0, k0, st0));
            let s2 = if ch.len() > 1 { pop(walk(ch[1], push_conditional(s1))) } else { s1 };
            if ch.len() > 1 {
                lemma_walk(ch[1], push_conditional(s1));
                lemma_facts_frame(
                    s1,
                    push_conditional(s1),
                    walk(ch[1], push_conditional(s1)),
                    k1,
                    2 * k1,
                    k1,
                    st1,
                );
                assert(walk_facts(s1, s2, k1, 2 * k1 + 1, k1, st1));
            } else {
                lemma_facts_refl(s1);
                assert(walk_facts(s1, s2, k1, 2 * k1 + 1, k1, st1));
            }
            let s3 = if ch.len() > 2 { pop(walk(ch[2], push_conditional(s2))) } else { s2 };
            if ch.len() > 2 {
                lemma_walk(ch[2], push_conditional(s2));
                lemma_facts_frame(
                    s2,
                    push_conditional(s2),
                    walk(ch[2], push_conditional(s2)),
                    k2,
                    2 * k2,
                    k2,
                    st2,
                );
            } else {
                lemma_facts_refl(s2);
            }
            assert(walk_facts(s2, s3, k2, 2 * k2 + 1, k2, st2));
            lemma_facts_compose(s, s1, s2, k0, 2 * k0, k0, st0, k1, 2 * k1 + 1, k1, st1);
            lemma_facts_compose(
                s,
                s2,
                s3,
                k0 + k1,
                2 * k0 + 2 * k1 + 1,
                k0 + k1,
                st0 + st1,
                k2,
                2 * k2 + 1,
                k2,
                st2,
            );
            assert(s3 == walk(n, s));
            assert(sites(n, d) == st0 + st1 + st2);
        },
        NodeKind::WhileStmt | NodeKind::ForStmt | NodeKind::DoStmt => {
            let k = size_children(n, 0);
            let t = push_loop(s);
            lemma_walk_children(n, 0, t);
            lemma_facts_frame(s, t, walk_children(n, 0, t), k, 2 * k, k, sites_children(n, 0, d + 1));
        },
        NodeKind::CaseStmt | NodeKind::DefaultStmt => {
            let k = size_children(n, 0);
            let t = push_case(s);
            lemma_walk_children(n, 0, t);
            lemma_facts_frame(s, t, walk_children(n, 0, t), k, 2 * k, k, sites_children(n, 0, d + 1));
        },
        NodeKind::CallExpr => {
            let k = size_children(n, 0);
            let m = visit_call(s, n);
            let st0 = match n.callee {
                Some(name) => seq![(name, d)],
                None => e,
            };
            lemma_facts_visit(n, s);
            lemma_walk_children(n, 0, m);
            lemma_facts_compose(s, m, walk_children(n, 0, m), 1, 0, 0, st0, k, 2 * k, k, sites_children(n, 0, d));
        },
        _ => {
            lemma_walk_children(n, 0, s);
        },
    }
}

/// Properties of the walk over the children of `n` from index `i` on.
proof fn lemma_walk_children(n: StmtNode, i: int, s: WalkState)
    requires
        room_for(s, size_children(n, i)),
    ensures
        walk_facts(
            s,
            walk_children(n, i, s),
            size_children(n, i),
            2 * size_children(n, i),
            size_children(n, i),
            sites_children(n, i, s.stack.len()),
        ),
    decreases n, n.children@.len() - i,
{
    if 0 <= i < n.children@.len() {
        let c = n.children@[i];
        lemma_walk(c, s);
        let m = walk(c, s);
        lemma_walk_children(n, i + 1, m);
        lemma_facts_compose(
            s,
            m,
            walk_children(n, i + 1, m),
            size(c),
            2 * size(c),
            size(c),
            sites(c, s.stack.len()),
            size_children(n, i + 1),
            2 * size_children(n, i + 1),
            size_children(n, i + 1),
            sites_children(n, i + 1, s.stack.len()),
        );
    } else {
        lemma_facts_refl(s);
    }
}

/// The calls of a function body carry the orders 1, 2, ..., n in the order in
/// which the walk visits them, however deeply they are nested.
pub proof fn lemma_orders_contiguous(body: StmtNode)
    requires
        room_for(initial_state(), size(body)),
    ensures
        forall|i: int|
            0 <= i < walk(body, initial_state()).calls.len() ==> #[trigger] walk(
                body,
                initial_state(),
            ).calls[i].order == i + 1,
{
    lemma_walk(body, initial_state());
}

/// The depth recorded with each call is the number of if-branch, loop and case
/// frames that enclose it; a call outside all of them has depth 0.
pub proof fn lemma_depth_counts_frames(body: StmtNode)
    requires
        room_for(initial_state(), size(body)),
    ensures
        depths(walk(body, initial_state()).calls) == sites(body, 0),
{
    lemma_walk(body, initial_state());
    assert(depths(Seq::<CallInfo>::empty()) + sites(body, 0) =~= sites(body, 0));
}

/// Ids are never reused: every call recorded while walking `n` from `s` runs in
/// the context in force before, in a loop, or in a branch or case whose id was
/// handed out during that walk (so it is above every id handed out before).
pub proof fn lemma_ids_fresh(n: StmtNode, s: WalkState)
    requires
        room_for(s, size(n)),
    ensures
        forall|i: int|
            s.calls.len() <= i < walk(n, s).calls.len() ==> fresh_context(
                #[trigger] walk(n, s).calls[i].context,
                s,
                walk(n, s),
            ),
        s.branches <= walk(n, s).branches,
        s.cases <= walk(n, s).cases,
{
    lemma_walk(n, s);
}

/// The then-branch and the else-branch of an `if` get different branch ids:
/// no call recorded in the one shares a branch id with a call recorded in the other.
pub proof fn lemma_then_else_ids_differ(n: StmtNode, s: WalkState)
    requires
        n.kind is IfStmt,
        n.children@.len() >= 3,
        room_for(s, size(n)),
    ensures
        ({
            let s1 = walk(n.children@[0], s);
            let s2 = pop(walk(n.children@[1], push_conditional(s1)));
            let calls = walk(n, s).calls;
            forall|i: int, j: int|
                s1.calls.len() <= i < s2.calls.len() <= j < calls.len() && (
                #[trigger] calls[i]).context is Conditional && (#[trigger] calls[j]).context is Conditional
                    ==> calls[i].context->branch_id != calls[j].context->branch_id
        }),
{
    let ch = n.children@;
    assert(size(n) == 1 + size_children(n, 0));
    assert(size_children(n, 0) == size(ch[0]) + size_children(n, 1));
    assert(size_children(n, 1) == size(ch[1]) + size_children(n, 2));
    assert(size_children(n, 2) == size(ch[2]) + size_children(n, 3));
    lemma_walk(ch[0], s);
    let s1 = walk(ch[0], s);
    let t1 = push_conditional(s1);
    lemma_walk(ch[1], t1);
    let r1 = walk(ch[1], t1);
    let s2 = pop(r1);
    let t2 = push_conditional(s2);
    lemma_walk(ch[2], t2);
    let r2 = walk(ch[2], t2);
    let calls = walk(n, s).calls;
    assert(calls == r2.calls);
    assert forall|i: int, j: int|
        s1.calls.len() <= i < s2.calls.len() <= j < calls.len() && (
        #[trigger] calls[i]).context is Conditional && (#[trigger] calls[j]).context is Conditional
            implies calls[i].context->branch_id != calls[j].context->branch_id by {
        assert(calls[i] == calls.subrange(0, s2.calls.len() as int)[i]);
        assert(fresh_context(r1.calls[i].context, t1, r1));
        assert(fresh_context(calls[j].context, t2, r2));
        assert(top_context(t1.stack) == t1.stack.last());
        assert(top_context(t2.stack) == t2.stack.last());
    }
}

/// A call whose callee does not resolve to a name records nothing: the walk
/// goes on as if the call node were not there.
pub proof fn lemma_unresolved_call_records_nothing(n: StmtNode, s: WalkState)
    requires
        n.kind is CallExpr,
        n.callee is None,
    ensures
        walk(n, s) == walk_children(n, 0, s),
        sites(n, s.stack.len()) == sites_children(n, 0, s.stack.len()),
{
}

} // verus!
