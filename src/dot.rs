use vstd::prelude::*;
use vstd::string::*;
use crate::call_graph::{CallGraph, CallGraphNode, names_of, total_calls};
use crate::function_db::{CallContext, CallInfo};
use crate::text::{decimal, file_name, push_decimal, sanitize_id, sanitized};

verus! {

/// The lines of `lines` written one after the other.
pub open spec fn concat(lines: Seq<Seq<char>>) -> Seq<char>
    decreases lines.len(),
{
    if lines.len() == 0 {
        Seq::empty()
    } else {
        concat(lines.drop_last()) + lines.last()
    }
}

proof fn lemma_concat_add(a: Seq<Seq<char>>, b: Seq<Seq<char>>)
    ensures
        concat(a + b) == concat(a) + concat(b),
    decreases b.len(),
{
    if b.len() == 0 {
        assert(a + b =~= a);
        assert(concat(a) + concat(b) =~= concat(a));
    } else {
        lemma_concat_add(a, b.drop_last());
        assert((a + b).drop_last() =~= a + b.drop_last());
        assert(concat(a) + concat(b) =~= concat(a) + concat(b.drop_last()) + b.last());
    }
}

/// The opening of the whole-graph description, up to the first node.
pub open spec fn dot_header() -> Seq<char> {
    "digraph CallGraph {\n    rankdir=TB;\n    splines=ortho;\n    nodesep=0.5;\n    ranksep=0.8;\n    fontname=\"Helvetica\";\n    node [shape=box, fontname=\"Helvetica\", fontsize=10];\n    edge [fontsize=8];\n\n"@
}

/// The fill and style of a node: entry, external, static, or any other.
pub open spec fn node_style(is_entry: bool, node: CallGraphNode) -> Seq<char> {
    if is_entry {
        "fillcolor=\"#90EE90\", style=filled"@
    } else if node.function.is_external() {
        "fillcolor=\"#D3D3D3\", style=\"filled,dashed\""@
    } else if node.function.is_static {
        "fillcolor=\"#FFFACD\", style=filled"@
    } else {
        "fillcolor=\"#E6F3FF\", style=filled"@
    }
}

/// What stands for the source file of an internal node: its file name, or `?`.
pub open spec fn base_text(base: Option<Seq<char>>) -> Seq<char> {
    match base {
        Some(b) => b,
        None => "?"@,
    }
}

/// The declaration line of the node `name`, whose source file has the file name `base`.
pub open spec fn node_decl(entry: Seq<char>, name: Seq<char>, node: CallGraphNode, base: Option<Seq<char>>) -> Seq<char> {
    if node.function.is_external() {
        "    "@ + sanitized(name) + " [label=\""@ + name + "\\n(external)"@ + "\", "@ + node_style(name == entry, node) + "];\n"@
    } else {
        "    "@ + sanitized(name) + " [label=\""@ + name + "\\n"@ + base_text(base) + "\", "@ + node_style(name == entry, node) + "];\n"@
    }
}

/// The color and style of an edge, by the context of its call.
pub open spec fn edge_style(c: CallContext) -> Seq<char> {
    match c {
        CallContext::Sequential => "color=\"#333333\""@,
        CallContext::Conditional { .. } => "color=\"#FF6B6B\", style=dashed"@,
        CallContext::Loop => "color=\"#4ECDC4\", style=bold"@,
        CallContext::Switch { .. } => "color=\"#9B59B6\""@,
    }
}

/// The label of an edge: the call's order, and for a branch or case its id.
pub open spec fn edge_label(c: CallInfo) -> Seq<char> {
    match c.context {
        CallContext::Sequential => decimal(c.order as nat),
        CallContext::Conditional { branch_id } => decimal(c.order as nat) + ":if"@ + decimal(branch_id as nat),
        CallContext::Loop => decimal(c.order as nat) + ":loop"@,
        CallContext::Switch { case_id } => decimal(c.order as nat) + ":case"@ + decimal(case_id as nat),
    }
}

/// The declaration line of the edge for call `c` made by `from`.
pub open spec fn edge_decl(from: Seq<char>, c: CallInfo) -> Seq<char> {
    "    "@ + sanitized(from) + " -> "@ + sanitized(c.function_name@) + " [label=\""@ + edge_label(c) + "\", "@ + edge_style(c.context) + "];\n"@
}

/// One declaration line per node, in order.
pub open spec fn node_decls(
    nodes: Seq<(String, CallGraphNode)>,
    entry: Seq<char>,
    bases: Seq<Option<Seq<char>>>,
) -> Seq<Seq<char>> {
    Seq::new(nodes.len(), |i: int| node_decl(entry, nodes[i].0@, nodes[i].1, bases[i]))
}

/// One declaration line per call, node by node and call by call.
pub open spec fn edge_decls(nodes: Seq<(String, CallGraphNode)>) -> Seq<Seq<char>>
    decreases nodes.len(),
{
    if nodes.len() == 0 {
        Seq::empty()
    } else {
        edge_decls(nodes.drop_last()) + nodes.last().1.calls@.map_values(
            |c: CallInfo| edge_decl(nodes.last().0@, c),
        )
    }
}

/// The whole-graph description, where `bases[i]` is the file name of the
/// source file of node `i`.
pub open spec fn dot_text(
    nodes: Seq<(String, CallGraphNode)>,
    entry: Seq<char>,
    bases: Seq<Option<Seq<char>>>,
) -> Seq<char> {
    dot_header() + concat(node_decls(nodes, entry, bases)) + "\n"@ + concat(edge_decls(nodes)) + "}\n"@
}

/// The string values of a list of optional strings.
pub open spec fn option_views(v: Seq<Option<String>>) -> Seq<Option<Seq<char>>> {
    v.map_values(|o: Option<String>| match o {
        Some(s) => Some(s@),
        None => None,
    })
}

/// The description declares exactly one node per node of the graph and one
/// edge per call.
pub proof fn lemma_declaration_counts(
    nodes: Seq<(String, CallGraphNode)>,
    entry: Seq<char>,
    bases: Seq<Option<Seq<char>>>,
)
    ensures
        node_decls(nodes, entry, bases).len() == nodes.len(),
        edge_decls(nodes).len() == total_calls(nodes),
    decreases nodes.len(),
{
    if nodes.len() > 0 {
        lemma_declaration_counts(nodes.drop_last(), entry, bases);
    }
}

fn node_line(entry: &String, name: &String, node: &CallGraphNode, base: &Option<String>) -> (r: String)
    ensures
        r@ == node_decl(entry@, name@, *node, match base {
            Some(b) => Some(b@),
            None => None,
        }),
{
    let marker = "extern".to_string();
    let is_external = node.function.signature.return_type == marker;
    let is_entry = *name == *entry;
    let mut s = "    ".to_string();
    s.append(sanitize_id(name.as_str()).as_str());
    s.append(" [label=\"");
    s.append(name.as_str());
    if is_external {
        s.append("\\n(external)");
    } else {
        s.append("\\n");
        match base {
            Some(b) => s.append(b.as_str()),
            None => s.append("?"),
        }
    }
    s.append("\", ");
    if is_entry {
        s.append("fillcolor=\"#90EE90\", style=filled");
    } else if is_external {
        s.append("fillcolor=\"#D3D3D3\", style=\"filled,dashed\"");
    } else if node.function.is_static {
        s.append("fillcolor=\"#FFFACD\", style=filled");
    } else {
        s.append("fillcolor=\"#E6F3FF\", style=filled");
    }
    s.append("];\n");
    s
}

fn edge_line(from: &String, c: &CallInfo) -> (r: String)
    ensures
        r@ == edge_decl(from@, *c),
{
    let mut s = "    ".to_string();
    s.append(sanitize_id(from.as_str()).as_str());
    s.append(" -> ");
    s.append(sanitize_id(c.function_name.as_str()).as_str());
    s.append(" [label=\"");
    let ghost before_label = s@;
    push_decimal(&mut s, c.order);
    match c.context {
        CallContext::Sequential => {},
        CallContext::Conditional { branch_id } => {
            s.append(":if");
            push_decimal(&mut s, branch_id);
        },
        CallContext::Loop => {
            s.append(":loop");
        },
        CallContext::Switch { case_id } => {
            s.append(":case");
            push_decimal(&mut s, case_id);
        },
    }
    assert(s@ =~= before_label + edge_label(*c));
    s.append("\", ");
    match c.context {
        CallContext::Sequential => s.append("color=\"#333333\""),
        CallContext::Conditional { .. } => s.append("color=\"#FF6B6B\", style=dashed"),
        CallContext::Loop => s.append("color=\"#4ECDC4\", style=bold"),
        CallContext::Switch { .. } => s.append("color=\"#9B59B6\""),
    }
    s.append("];\n");
    s
}

impl CallGraph {
    /// The whole-graph description, given the file name of each node's source
    /// file (`bases[i]` for node `i`; only internal nodes show it).
    pub fn to_dot_with_basenames(&self, bases: &Vec<Option<String>>) -> (r: String)
        requires
            bases@.len() == self.nodes_view().len(),
        ensures
            r@ == dot_text(self.nodes_view(), self.entry_view(), option_views(bases@)),
    {
        let nodes = self.iter_nodes();
        let entry = self.entry_name();
        let ghost nv = self.nodes_view();
        let ghost decls = node_decls(nv, entry@, option_views(bases@));
        let mut s = String::new();
        s.append("digraph CallGraph {\n    rankdir=TB;\n    splines=ortho;\n    nodesep=0.5;\n    ranksep=0.8;\n    fontname=\"Helvetica\";\n    node [shape=box, fontname=\"Helvetica\", fontsize=10];\n    edge [fontsize=8];\n\n");
        assert(s@ =~= dot_header());
        let mut i: usize = 0;
        while i < nodes.len()
            invariant
                nodes@.len() == nv.len(),
                bases@.len() == nv.len(),
                forall|k: int| 0 <= k < nodes@.len() ==> *(#[trigger] nodes@[k]).0 == nv[k].0 && *nodes@[k].1 == nv[k].1,
                decls == node_decls(nv, entry@, option_views(bases@)),
                i <= nv.len(),
                s@ == dot_header() + concat(decls.subrange(0, i as int)),
            decreases nv.len() - i,
        {
            let (name, node) = nodes[i];
            let line = node_line(entry, name, node, &bases[i]);
            s.append(line.as_str());
            proof {
                assert(decls.subrange(0, i + 1).drop_last() =~= decls.subrange(0, i as int));
                assert(option_views(bases@)[i as int] == match bases@[i as int] {
                    Some(b) => Some(b@),
                    None => None::<Seq<char>>,
                });
            }
            i = i + 1;
        }
        assert(decls.subrange(0, i as int) =~= decls);
        s.append("\n");
        let ghost mid = s@;
        let mut i: usize = 0;
        while i < nodes.len()
            invariant
                nodes@.len() == nv.len(),
                forall|k: int| 0 <= k < nodes@.len() ==> *(#[trigger] nodes@[k]).0 == nv[k].0 && *nodes@[k].1 == nv[k].1,
                i <= nv.len(),
                s@ == mid + concat(edge_decls(nv.subrange(0, i as int))),
            decreases nv.len() - i,
        {
            let (name, node) = nodes[i];
            let ghost here = node.calls@.map_values(|c: CallInfo| edge_decl(name@, c));
            let ghost start = s@;
            let mut j: usize = 0;
            while j < node.calls.len()
                invariant
                    j <= node.calls@.len(),
                    here == node.calls@.map_values(|c: CallInfo| edge_decl(name@, c)),
                    s@ == start + concat(here.subrange(0, j as int)),
                decreases node.calls@.len() - j,
            {
                let line = edge_line(name, &node.calls[j]);
                s.append(line.as_str());
                proof {
                    assert(here.subrange(0, j + 1).drop_last() =~= here.subrange(0, j as int));
                }
                j = j + 1;
            }
            proof {
                assert(here.subrange(0, j as int) =~= here);
                assert(nv.subrange(0, i + 1).drop_last() =~= nv.subrange(0, i as int));
                assert(nv.subrange(0, i + 1).last() == nv[i as int]);
                lemma_concat_add(edge_decls(nv.subrange(0, i as int)), here);
            }
            i = i + 1;
        }
        assert(nv.subrange(0, i as int) =~= nv);
        s.append("}\n");
        s
    }

    /// The whole-graph description: a header, one declaration per node, a
    /// blank line, one declaration per call, and the closing brace. Each
    /// internal node shows the file name of its source file, as the platform's
    /// paths read it.
    pub fn to_dot(&self) -> (r: String)
        ensures
            exists|bases: Seq<Option<Seq<char>>>|
                bases.len() == self.nodes_view().len() && r@ == #[trigger] dot_text(
                    self.nodes_view(),
                    self.entry_view(),
                    bases,
                ),
    {
        let nodes = self.iter_nodes();
        let mut bases: Vec<Option<String>> = Vec::new();
        let mut i: usize = 0;
        while i < nodes.len()
            invariant
                i <= nodes@.len(),
                bases@.len() == i,
            decreases nodes@.len() - i,
        {
            let (_, node) = nodes[i];
            bases.push(file_name(node.function.source_file.as_str()));
            i = i + 1;
        }
        let r = self.to_dot_with_basenames(&bases);
        assert(r@ == dot_text(self.nodes_view(), self.entry_view(), option_views(bases@)));
        r
    }
}

/// Which of a function's calls a cluster or a section gathers.
#[derive(Debug, Clone, Copy, PartialEq, Eq, Structural)]
pub enum Selector {
    Branch(u32),
    Loop,
    Case(u32),
    Sequential,
}

pub open spec fn selects(sel: Selector, c: CallInfo) -> bool {
    match sel {
        Selector::Branch(b) => c.context == CallContext::Conditional { branch_id: b },
        Selector::Loop => c.context is Loop,
        Selector::Case(k) => c.context == CallContext::Switch { case_id: k },
        Selector::Sequential => c.context is Sequential,
    }
}

fn selects_exec(sel: Selector, c: &CallInfo) -> (r: bool)
    ensures
        r == selects(sel, *c),
{
    match sel {
        Selector::Branch(b) => match c.context {
            CallContext::Conditional { branch_id } => branch_id == b,
            _ => false,
        },
        Selector::Loop => match c.context {
            CallContext::Loop => true,
            _ => false,
        },
        Selector::Case(k) => match c.context {
            CallContext::Switch { case_id } => case_id == k,
            _ => false,
        },
        Selector::Sequential => match c.context {
            CallContext::Sequential => true,
            _ => false,
        },
    }
}

/// The identifier of the node that stands for call `c` in a single-function view.
pub open spec fn call_id(c: CallInfo) -> Seq<char> {
    sanitized(c.function_name@) + "_"@ + decimal(c.order as nat)
}

/// The declaration of the node for call `c`, indented by `indent`.
pub open spec fn member_decl(indent: Seq<char>, c: CallInfo) -> Seq<char> {
    indent + call_id(c) + " [label=\""@ + c.function_name@ + "\"];\n"@
}

/// The declarations of the calls that `sel` selects, in order.
pub open spec fn members(calls: Seq<CallInfo>, sel: Selector, indent: Seq<char>) -> Seq<char>
    decreases calls.len(),
{
    if calls.len() == 0 {
        Seq::empty()
    } else {
        members(calls.drop_last(), sel, indent) + if selects(sel, calls.last()) {
            member_decl(indent, calls.last())
        } else {
            Seq::empty()
        }
    }
}

/// The branch id (or, with `cases`, the case id) that a context carries.
pub open spec fn context_id(c: CallContext, cases: bool) -> Option<u32> {
    match c {
        CallContext::Conditional { branch_id } => if cases { None } else { Some(branch_id) },
        CallContext::Switch { case_id } => if cases { Some(case_id) } else { None },
        _ => None,
    }
}

/// The branch ids (or case ids) of the calls, each once, in order of first appearance.
pub open spec fn first_ids(calls: Seq<CallInfo>, cases: bool) -> Seq<u32>
    decreases calls.len(),
{
    if calls.len() == 0 {
        Seq::empty()
    } else {
        let prev = first_ids(calls.drop_last(), cases);
        match context_id(calls.last().context, cases) {
            Some(id) => if prev.contains(id) { prev } else { prev.push(id) },
            None => prev,
        }
    }
}

/// The cluster of the calls of one branch (or one case).
pub open spec fn cluster(calls: Seq<CallInfo>, id: u32, cases: bool) -> Seq<char> {
    if cases {
        "    subgraph cluster_case"@ + decimal(id as nat) + " {\n        label=\"Case "@ + decimal(id as nat)
            + "\";\n        style=solid;\n        color=\"#9B59B6\";\n"@ + members(calls, Selector::Case(id), "        "@)
            + "    }\n"@
    } else {
        "    subgraph cluster_if"@ + decimal(id as nat) + " {\n        label=\"Branch "@ + decimal(id as nat)
            + "\";\n        style=dashed;\n        color=\"#FF6B6B\";\n"@ + members(calls, Selector::Branch(id), "        "@)
            + "    }\n"@
    }
}

/// The clusters for the ids `ids`, in that order.
pub open spec fn clusters(calls: Seq<CallInfo>, ids: Seq<u32>, cases: bool) -> Seq<char>
    decreases ids.len(),
{
    if ids.len() == 0 {
        Seq::empty()
    } else {
        clusters(calls, ids.drop_last(), cases) + cluster(calls, ids.last(), cases)
    }
}

pub open spec fn has_loop(calls: Seq<CallInfo>) -> bool {
    exists|i: int| 0 <= i < calls.len() && (#[trigger] calls[i]).context is Loop
}

/// The one cluster of all calls made in loops, at any nesting, if there are any.
pub open spec fn loop_cluster(calls: Seq<CallInfo>) -> Seq<char> {
    if has_loop(calls) {
        "    subgraph cluster_loop {\n        label=\"Loop\";\n        style=bold;\n        color=\"#4ECDC4\";\n"@
            + members(calls, Selector::Loop, "        "@) + "    }\n"@
    } else {
        Seq::empty()
    }
}

/// `x` inserted into `s` after every element whose order is at most its own.
pub open spec fn insert_by_order(s: Seq<CallInfo>, x: CallInfo) -> Seq<CallInfo>
    decreases s.len(),
{
    if s.len() == 0 {
        seq![x]
    } else if s.last().order <= x.order {
        s.push(x)
    } else {
        insert_by_order(s.drop_last(), x).push(s.last())
    }
}

/// The calls sorted by order; calls of equal order keep their relative order.
pub open spec fn sort_by_order(s: Seq<CallInfo>) -> Seq<CallInfo>
    decreases s.len(),
{
    if s.len() == 0 {
        Seq::empty()
    } else {
        insert_by_order(sort_by_order(s.drop_last()), s.last())
    }
}

/// The node the `i`th edge of the chain leaves from.
pub open spec fn chain_from(start: Seq<char>, s: Seq<CallInfo>, i: int) -> Seq<char> {
    if i == 0 {
        start
    } else {
        call_id(s[i - 1])
    }
}

/// The chain of edges from `start` through the calls of `s` in turn.
pub open spec fn chain(start: Seq<char>, s: Seq<CallInfo>) -> Seq<char>
    decreases s.len(),
{
    if s.len() == 0 {
        Seq::empty()
    } else {
        chain(start, s.drop_last()) + "    "@ + chain_from(start, s, s.len() - 1) + " -> "@ + call_id(s.last())
            + " [label=\""@ + decimal(s.last().order as nat) + "\"];\n"@
    }
}

/// The single-function view of `name`, whose calls are `calls`.
pub open spec fn focus_text(name: Seq<char>, calls: Seq<CallInfo>) -> Seq<char> {
    "digraph "@ + sanitized(name) + " {\n    rankdir=TB;\n    splines=ortho;\n    node [shape=box, fontname=\"Helvetica\"];\n\n"@
        + "    "@ + sanitized(name) + " [label=\""@ + name + "\", fillcolor=\"#90EE90\", style=filled];\n"@
        + clusters(calls, first_ids(calls, false), false) + loop_cluster(calls) + clusters(
        calls,
        first_ids(calls, true),
        true,
    ) + members(calls, Selector::Sequential, "    "@) + "\n"@ + chain(sanitized(name), sort_by_order(calls))
        + "}\n"@
}

fn call_id_string(c: &CallInfo) -> (r: String)
    ensures
        r@ == call_id(*c),
{
    let mut s = sanitize_id(c.function_name.as_str());
    s.append("_");
    push_decimal(&mut s, c.order);
    s
}

fn push_members(s: &mut String, calls: &Vec<CallInfo>, sel: Selector, indent: &str)
    ensures
        final(s)@ == old(s)@ + members(calls@, sel, indent@),
{
    let mut i: usize = 0;
    while i < calls.len()
        invariant
            i <= calls@.len(),
            s@ == old(s)@ + members(calls@.subrange(0, i as int), sel, indent@),
        decreases calls@.len() - i,
    {
        proof {
            assert(calls@.subrange(0, i + 1).drop_last() =~= calls@.subrange(0, i as int));
        }
        if selects_exec(sel, &calls[i]) {
            let ghost before = s@;
            s.append(indent);
            s.append(call_id_string(&calls[i]).as_str());
            s.append(" [label=\"");
            s.append(calls[i].function_name.as_str());
            s.append("\"];\n");
            assert(s@ =~= before + member_decl(indent@, calls@[i as int]));
        } else {
            assert(s@ =~= s@ + Seq::<char>::empty());
        }
        i = i + 1;
    }
    assert(calls@.subrange(0, i as int) =~= calls@);
}

fn contains_id(v: &Vec<u32>, x: u32) -> (r: bool)
    ensures
        r == v@.contains(x),
{
    let mut i: usize = 0;
    while i < v.len()
        invariant
            i <= v@.len(),
            forall|k: int| 0 <= k < i ==> v@[k] != x,
        decreases v@.len() - i,
    {
        if v[i] == x {
            return true;
        }
        i = i + 1;
    }
    false
}

fn first_ids_exec(calls: &Vec<CallInfo>, cases: bool) -> (r: Vec<u32>)
    ensures
        r@ == first_ids(calls@, cases),
{
    let mut r: Vec<u32> = Vec::new();
    let mut i: usize = 0;
    while i < calls.len()
        invariant
            i <= calls@.len(),
            r@ == first_ids(calls@.subrange(0, i as int), cases),
        decreases calls@.len() - i,
    {
        proof {
            assert(calls@.subrange(0, i + 1).drop_last() =~= calls@.subrange(0, i as int));
        }
        let id: Option<u32> = match calls[i].context {
            CallContext::Conditional { branch_id } => if cases { None } else { Some(branch_id) },
            CallContext::Switch { case_id } => if cases { Some(case_id) } else { None },
            _ => None,
        };
        match id {
            Some(x) => {
                if !contains_id(&r, x) {
                    r.push(x);
                }
            },
            None => {},
        }
        i = i + 1;
    }
    assert(calls@.subrange(0, i as int) =~= calls@);
    r
}

fn push_clusters(s: &mut String, calls: &Vec<CallInfo>, ids: &Vec<u32>, cases: bool)
    ensures
        final(s)@ == old(s)@ + clusters(calls@, ids@, cases),
{
    let mut i: usize = 0;
    while i < ids.len()
        invariant
            i <= ids@.len(),
            s@ == old(s)@ + clusters(calls@, ids@.subrange(0, i as int), cases),
        decreases ids@.len() - i,
    {
        proof {
            assert(ids@.subrange(0, i + 1).drop_last() =~= ids@.subrange(0, i as int));
        }
        let id = ids[i];
        let ghost before = s@;
        if cases {
            s.append("    subgraph cluster_case");
            push_decimal(s, id);
            s.append(" {\n        label=\"Case ");
            push_decimal(s, id);
            s.append("\";\n        style=solid;\n        color=\"#9B59B6\";\n");
            push_members(s, calls, Selector::Case(id), "        ");
        } else {
            s.append("    subgraph cluster_if");
            push_decimal(s, id);
            s.append(" {\n        label=\"Branch ");
            push_decimal(s, id);
            s.append("\";\n        style=dashed;\n        color=\"#FF6B6B\";\n");
            push_members(s, calls, Selector::Branch(id), "        ");
        }
        s.append("    }\n");
        assert(s@ =~= before + cluster(calls@, id, cases));
        i = i + 1;
    }
    assert(ids@.subrange(0, i as int) =~= ids@);
}

fn has_loop_exec(calls: &Vec<CallInfo>) -> (r: bool)
    ensures
        r == has_loop(calls@),
{
    let mut i: usize = 0;
    while i < calls.len()
        invariant
            i <= calls@.len(),
            forall|k: int| 0 <= k < i ==> !(calls@[k].context is Loop),
        decreases calls@.len() - i,
    {
        match calls[i].context {
            CallContext::Loop => {
                return true;
            },
            _ => {},
        }
        i = i + 1;
    }
    false
}

proof fn lemma_insert_at(s: Seq<CallInfo>, x: CallInfo, p: int)
    requires
        0 <= p <= s.len(),
        p == 0 || s[p - 1].order <= x.order,
        forall|q: int| p <= q < s.len() ==> (#[trigger] s[q]).order > x.order,
    ensures
        insert_by_order(s, x) == s.insert(p, x),
    decreases s.len(),
{
    if s.len() == 0 {
        assert(s.insert(p, x) =~= seq![x]);
    } else if p == s.len() {
        assert(s.insert(p, x) =~= s.push(x));
    } else {
        assert(s.last().order > x.order);
        lemma_insert_at(s.drop_last(), x, p);
        assert(s.drop_last().insert(p, x).push(s.last()) =~= s.insert(p, x));
    }
}

fn sorted_by_order(calls: &Vec<CallInfo>) -> (r: Vec<CallInfo>)
    ensures
        r@ == sort_by_order(calls@),
{
    let mut r: Vec<CallInfo> = Vec::new();
    let mut i: usize = 0;
    while i < calls.len()
        invariant
            i <= calls@.len(),
            r@ == sort_by_order(calls@.subrange(0, i as int)),
        decreases calls@.len() - i,
    {
        proof {
            assert(calls@.subrange(0, i + 1).drop_last() =~= calls@.subrange(0, i as int));
        }
        let x = calls[i].duplicate();
        let mut p: usize = r.len();
        while p > 0 && r[p - 1].order > x.order
            invariant
                p <= r@.len(),
                forall|q: int| p <= q < r@.len() ==> (#[trigger] r@[q]).order > x.order,
            decreases p,
        {
            p = p - 1;
        }
        proof {
            lemma_insert_at(r@, x, p as int);
        }
        r.insert(p, x);
        i = i + 1;
    }
    assert(calls@.subrange(0, i as int) =~= calls@);
    r
}

fn push_chain(s: &mut String, start: &String, sorted: &Vec<CallInfo>)
    ensures
        final(s)@ == old(s)@ + chain(start@, sorted@),
{
    let mut prev = start.clone();
    let mut i: usize = 0;
    while i < sorted.len()
        invariant
            i <= sorted@.len(),
            prev@ == chain_from(start@, sorted@, i as int),
            s@ == old(s)@ + chain(start@, sorted@.subrange(0, i as int)),
        decreases sorted@.len() - i,
    {
        let ghost sub = sorted@.subrange(0, i + 1);
        proof {
            assert(sub.drop_last() =~= sorted@.subrange(0, i as int));
            assert(chain_from(start@, sub, i as int) == chain_from(start@, sorted@, i as int));
        }
        let ghost before = s@;
        let id = call_id_string(&sorted[i]);
        s.append("    ");
        s.append(prev.as_str());
        s.append(" -> ");
        s.append(id.as_str());
        s.append(" [label=\"");
        push_decimal(s, sorted[i].order);
        s.append("\"];\n");
        prev = id;
        i = i + 1;
    }
    assert(sorted@.subrange(0, i as int) =~= sorted@);
}

impl CallGraph {
    /// The single-function view of `func_name`: its calls as nodes, gathered in
    /// a cluster per branch and per case (in order of first appearance) and one
    /// for all loop calls, and chained in order of their `order`.
    pub fn to_dot_for_function(&self, func_name: &str) -> (r: Option<String>)
        ensures
            r is None <==> !names_of(self.nodes_view()).contains(func_name@),
            r matches Some(t) ==> exists|i: int|
                0 <= i < self.nodes_view().len() && self.nodes_view()[i].0@ == func_name@ && t@
                    == focus_text(func_name@, #[trigger] self.nodes_view()[i].1.calls@),
    {
        let node = match self.get_node(func_name) {
            Some(n) => n,
            None => {
                return None;
            },
        };
        let id = sanitize_id(func_name);
        let mut s = "digraph ".to_string();
        s.append(id.as_str());
        s.append(" {\n    rankdir=TB;\n    splines=ortho;\n    node [shape=box, fontname=\"Helvetica\"];\n\n");
        s.append("    ");
        s.append(id.as_str());
        s.append(" [label=\"");
        s.append(func_name);
        s.append("\", fillcolor=\"#90EE90\", style=filled];\n");
        let branch_ids = first_ids_exec(&node.calls, false);
        push_clusters(&mut s, &node.calls, &branch_ids, false);
        if has_loop_exec(&node.calls) {
            s.append("    subgraph cluster_loop {\n        label=\"Loop\";\n        style=bold;\n        color=\"#4ECDC4\";\n");
            push_members(&mut s, &node.calls, Selector::Loop, "        ");
            s.append("    }\n");
        } else {
            assert(s@ =~= s@ + Seq::<char>::empty());
        }
        let case_ids = first_ids_exec(&node.calls, true);
        push_clusters(&mut s, &node.calls, &case_ids, true);
        push_members(&mut s, &node.calls, Selector::Sequential, "    ");
        s.append("\n");
        let sorted = sorted_by_order(&node.calls);
        push_chain(&mut s, &id, &sorted);
        s.append("}\n");
        Some(s)
    }
}

} // verus!
