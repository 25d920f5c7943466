use vstd::prelude::*;
use crate::function_db::{CallInfo, Definition, FunctionDatabase, copy_calls};

verus! {

/// A function of the graph: its definition (or a stand-in) and its ordered calls.
#[derive(Debug)]
pub struct CallGraphNode {
    pub function: Definition,
    /// Ordered list of calls with context information
    pub calls: Vec<CallInfo>,
}

/// The functions reachable from an entry point, each under the name it is called by.
#[derive(Debug)]
pub struct CallGraph {
    nodes: Vec<(String, CallGraphNode)>,
    entry_point: String,
}

/// `a` has a definition in `db` that calls `b`.
pub open spec fn calls_to(db: Map<Seq<char>, Definition>, a: Seq<char>, b: Seq<char>) -> bool {
    &&& db.contains_key(a)
    &&& exists|i: int| 0 <= i < db[a].calls@.len() && #[trigger] db[a].calls@[i].function_name@ == b
}

/// Each name of `p` calls the next one.
pub open spec fn is_call_path(db: Map<Seq<char>, Definition>, p: Seq<Seq<char>>) -> bool {
    &&& p.len() > 0
    &&& forall|i: int| 0 <= i < p.len() - 1 ==> calls_to(db, #[trigger] p[i], p[i + 1])
}

/// `to` is `from`, or is called from it directly or transitively.
pub open spec fn reachable(db: Map<Seq<char>, Definition>, from: Seq<char>, to: Seq<char>) -> bool {
    exists|p: Seq<Seq<char>>| #[trigger] is_call_path(db, p) && p[0] == from && p.last() == to
}

/// `node` is what the graph holds for `name`: the definition from `db` with its
/// calls, or an external stand-in with no calls where `db` has none.
pub open spec fn node_for(db: Map<Seq<char>, Definition>, name: Seq<char>, node: CallGraphNode) -> bool {
    if db.contains_key(name) {
        node.function.same_as(&db[name]) && node.calls@ == db[name].calls@
    } else {
        node.function.is_stub_for(name) && node.calls@.len() == 0
    }
}

/// The names of the nodes, in order.
pub open spec fn names_of(nodes: Seq<(String, CallGraphNode)>) -> Seq<Seq<char>> {
    nodes.map_values(|e: (String, CallGraphNode)| e.0@)
}

/// `nodes` is the call graph of `db` from `entry`: the entry comes first, every
/// name occurs once, the names are exactly those reachable from the entry, and
/// each node is what `db` says of its name.
pub open spec fn is_call_graph(
    db: Map<Seq<char>, Definition>,
    entry: Seq<char>,
    nodes: Seq<(String, CallGraphNode)>,
) -> bool {
    &&& nodes.len() > 0
    &&& nodes[0].0@ == entry
    &&& names_of(nodes).no_duplicates()
    &&& forall|i: int| 0 <= i < nodes.len() ==> node_for(db, #[trigger] nodes[i].0@, nodes[i].1)
    &&& forall|n: Seq<char>| names_of(nodes).contains(n) <==> reachable(db, entry, n)
}

/// Node `a` of `nodes` has a call to `b`.
pub open spec fn graph_calls(nodes: Seq<(String, CallGraphNode)>, a: Seq<char>, b: Seq<char>) -> bool {
    exists|j: int, c: int|
        0 <= j < nodes.len() && 0 <= c < nodes[j].1.calls@.len() && nodes[j].0@ == a
            && #[trigger] nodes[j].1.calls@[c].function_name@ == b
}

/// `to` is `from`, or is called from it directly or transitively, within `nodes`.
pub open spec fn graph_reachable(nodes: Seq<(String, CallGraphNode)>, from: Seq<char>, to: Seq<char>) -> bool {
    exists|p: Seq<Seq<char>>|
        #[trigger] is_graph_path(nodes, p) && p[0] == from && p.last() == to
}

/// Each name of `p` calls the next one within `nodes`.
pub open spec fn is_graph_path(nodes: Seq<(String, CallGraphNode)>, p: Seq<Seq<char>>) -> bool {
    &&& p.len() > 0
    &&& forall|i: int| 0 <= i < p.len() - 1 ==> graph_calls(nodes, #[trigger] p[i], p[i + 1])
}

/// The number of calls over all nodes.
pub open spec fn total_calls(nodes: Seq<(String, CallGraphNode)>) -> nat
    decreases nodes.len(),
{
    if nodes.len() == 0 {
        0
    } else {
        total_calls(nodes.drop_last()) + nodes.last().1.calls@.len()
    }
}

/// The number of external stand-ins among the nodes.
pub open spec fn count_external(nodes: Seq<(String, CallGraphNode)>) -> nat
    decreases nodes.len(),
{
    if nodes.len() == 0 {
        0
    } else {
        count_external(nodes.drop_last()) + if nodes.last().1.function.is_external() { 1nat } else { 0nat }
    }
}

/// The number of nodes whose definition is static.
pub open spec fn count_static(nodes: Seq<(String, CallGraphNode)>) -> nat
    decreases nodes.len(),
{
    if nodes.len() == 0 {
        0
    } else {
        count_static(nodes.drop_last()) + if nodes.last().1.function.is_static { 1nat } else { 0nat }
    }
}

proof fn lemma_reach_step(db: Map<Seq<char>, Definition>, entry: Seq<char>, a: Seq<char>, b: Seq<char>)
    requires
        reachable(db, entry, a),
        calls_to(db, a, b),
    ensures
        reachable(db, entry, b),
{
    let p = choose|p: Seq<Seq<char>>| #[trigger] is_call_path(db, p) && p[0] == entry && p.last() == a;
    let q = p.push(b);
    assert forall|i: int| 0 <= i < q.len() - 1 implies calls_to(db, #[trigger] q[i], q[i + 1]) by {
        if i < p.len() - 1 {
            assert(q[i] == p[i] && q[i + 1] == p[i + 1]);
        }
    }
    assert(is_call_path(db, q));
}

proof fn lemma_reach_self(db: Map<Seq<char>, Definition>, entry: Seq<char>)
    ensures
        reachable(db, entry, entry),
{
    let p = seq![entry];
    assert(is_call_path(db, p));
}

/// A set of names that holds `entry` and every callee of its members holds
/// everything reachable from `entry`.
proof fn lemma_closed_holds_reachable(
    db: Map<Seq<char>, Definition>,
    entry: Seq<char>,
    names: Seq<Seq<char>>,
    n: Seq<char>,
)
    requires
        names.contains(entry),
        forall|a: Seq<char>, b: Seq<char>| names.contains(a) && #[trigger] calls_to(db, a, b) ==> names.contains(b),
        reachable(db, entry, n),
    ensures
        names.contains(n),
{
    let p = choose|p: Seq<Seq<char>>| #[trigger] is_call_path(db, p) && p[0] == entry && p.last() == n;
    lemma_path_in(db, p, names, p.len() - 1);
}

proof fn lemma_path_in(db: Map<Seq<char>, Definition>, p: Seq<Seq<char>>, names: Seq<Seq<char>>, k: int)
    requires
        is_call_path(db, p),
        names.contains(p[0]),
        forall|a: Seq<char>, b: Seq<char>| names.contains(a) && #[trigger] calls_to(db, a, b) ==> names.contains(b),
        0 <= k < p.len(),
    ensures
        names.contains(p[k]),
    decreases k,
{
    if k > 0 {
        lemma_path_in(db, p, names, k - 1);
        assert(calls_to(db, p[k - 1], p[k]));
    }
}

/// The graph node for `name`, built from `db`.
fn make_node(db: &FunctionDatabase, name: &String) -> (r: CallGraphNode)
    requires
        db.wf(),
    ensures
        node_for(db@, name@, r),
{
    match db.get_function_definition(name.as_str()) {
        Some(def) => CallGraphNode { function: def.duplicate(), calls: copy_calls(&def.calls) },
        None => CallGraphNode { function: Definition::external_stub(name.as_str()), calls: Vec::new() },
    }
}

/// Whether one of `nodes` is named `name`.
fn has_name(nodes: &Vec<(String, CallGraphNode)>, name: &String) -> (r: bool)
    ensures
        r == names_of(nodes@).contains(name@),
{
    let mut j: usize = 0;
    while j < nodes.len()
        invariant
            j <= nodes@.len(),
            forall|k: int| 0 <= k < j ==> nodes@[k].0@ != name@,
        decreases nodes@.len() - j,
    {
        if nodes[j].0 == *name {
            assert(names_of(nodes@)[j as int] == name@);
            return true;
        }
        j = j + 1;
    }
    assert forall|k: int| 0 <= k < names_of(nodes@).len() implies names_of(nodes@)[k] != name@ by {
        assert(names_of(nodes@)[k] == nodes@[k].0@);
    }
    false
}

impl CallGraph {
    /// The nodes with their names, in order of discovery.
    pub closed spec fn nodes_view(&self) -> Seq<(String, CallGraphNode)> {
        self.nodes@
    }

    /// The name of the entry point.
    pub closed spec fn entry_view(&self) -> Seq<char> {
        self.entry_point@
    }

    /// Builds the call graph of `db` from `entry_point`: breadth first over the
    /// recorded calls, with an external stand-in for each name `db` has no
    /// definition of (the entry point included).
    pub fn build(db: &FunctionDatabase, entry_point: &str) -> (g: CallGraph)
        requires
            db.wf(),
        ensures
            is_call_graph(db@, entry_point@, g.nodes_view()),
            g.entry_view() == entry_point@,
            g.wf(),
    {
        let ghost dbm = db@;
        let ghost entry = entry_point@;
        let ghost universe = db.callee_names().insert(entry);
        proof {
            db.lemma_callee_names();
            lemma_reach_self(dbm, entry);
        }
        let entry_name = entry_point.to_string();
        let first = make_node(db, &entry_name);
        let mut nodes: Vec<(String, CallGraphNode)> = Vec::new();
        nodes.push((entry_name, first));
        proof {
            assert(names_of(nodes@) =~= seq![entry]);
            assert forall|x: Seq<char>| names_of(nodes@).to_set().contains(x) implies universe.contains(x) by {
                let w = choose|w: int| 0 <= w < names_of(nodes@).len() && names_of(nodes@)[w] == x;
                assert(w == 0);
            }
            vstd::set_lib::lemma_len_subset(names_of(nodes@).to_set(), universe);
            names_of(nodes@).unique_seq_to_set();
        }
        let mut i: usize = 0;
        while i < nodes.len()
            invariant
                db.wf(),
                dbm == db@,
                universe.finite(),
                universe == db.callee_names().insert(entry),
                forall|k: Seq<char>, c: int|
                    #![trigger db@[k].calls@[c]]
                    db@.contains_key(k) && 0 <= c < db@[k].calls@.len()
                        ==> db.callee_names().contains(db@[k].calls@[c].function_name@),
                i <= nodes@.len(),
                nodes@.len() <= universe.len(),
                nodes@.len() > 0,
                nodes@[0].0@ == entry,
                names_of(nodes@).no_duplicates(),
                forall|k: int| 0 <= k < nodes@.len() ==> universe.contains(#[trigger] nodes@[k].0@),
                forall|k: int| 0 <= k < nodes@.len() ==> node_for(dbm, #[trigger] nodes@[k].0@, nodes@[k].1),
                forall|k: int| 0 <= k < nodes@.len() ==> reachable(dbm, entry, #[trigger] nodes@[k].0@),
                forall|k: int, c: int|
                    #![trigger nodes@[k].1.calls@[c]]
                    0 <= k < i && 0 <= c < nodes@[k].1.calls@.len() ==> names_of(nodes@).contains(
                        nodes@[k].1.calls@[c].function_name@,
                    ),
            decreases universe.len() - i,
        {
            let mut c: usize = 0;
            while c < nodes[i].1.calls.len()
                invariant
                    db.wf(),
                    dbm == db@,
                    universe.finite(),
                    universe == db.callee_names().insert(entry),
                    forall|k: Seq<char>, c: int|
                        #![trigger db@[k].calls@[c]]
                        db@.contains_key(k) && 0 <= c < db@[k].calls@.len()
                            ==> db.callee_names().contains(db@[k].calls@[c].function_name@),
                    i < nodes@.len(),
                    nodes@.len() <= universe.len(),
                    nodes@[0].0@ == entry,
                    names_of(nodes@).no_duplicates(),
                    forall|k: int| 0 <= k < nodes@.len() ==> universe.contains(#[trigger] nodes@[k].0@),
                    forall|k: int| 0 <= k < nodes@.len() ==> node_for(dbm, #[trigger] nodes@[k].0@, nodes@[k].1),
                    forall|k: int| 0 <= k < nodes@.len() ==> reachable(dbm, entry, #[trigger] nodes@[k].0@),
                    forall|k: int, c2: int|
                        #![trigger nodes@[k].1.calls@[c2]]
                        (0 <= k < i || (k == i && c2 < c)) && 0 <= c2 < nodes@[k].1.calls@.len()
                            ==> names_of(nodes@).contains(nodes@[k].1.calls@[c2].function_name@),
                    c <= nodes@[i as int].1.calls@.len(),
                decreases nodes@[i as int].1.calls@.len() - c,
            {
                let callee = nodes[i].1.calls[c].function_name.clone();
                let ghost a = nodes@[i as int].0@;
                proof {
                    assert(node_for(dbm, a, nodes@[i as int].1));
                    assert(dbm.contains_key(a));
                    assert(nodes@[i as int].1.calls@[c as int] == dbm[a].calls@[c as int]);
                    assert(calls_to(dbm, a, callee@));
                    lemma_reach_step(dbm, entry, a, callee@);
                    assert(universe.contains(callee@));
                }
                if !has_name(&nodes, &callee) {
                    let node = make_node(db, &callee);
                    let ghost before = nodes@;
                    nodes.push((callee, node));
                    proof {
                        assert(names_of(nodes@) =~= names_of(before).push(callee@));
                        assert forall|k: int, c2: int|
                            #![trigger nodes@[k].1.calls@[c2]]
                            (0 <= k < i || (k == i && c2 <= c)) && 0 <= c2 < nodes@[k].1.calls@.len()
                                implies names_of(nodes@).contains(nodes@[k].1.calls@[c2].function_name@) by {
                            assert(nodes@[k] == before[k]);
                            if !(k == i && c2 == c) {
                                assert(names_of(before).contains(before[k].1.calls@[c2].function_name@));
                                let w = choose|w: int| 0 <= w < names_of(before).len() && names_of(before)[w] == before[k].1.calls@[c2].function_name@;
                                assert(names_of(nodes@)[w] == names_of(before)[w]);
                            } else {
                                assert(names_of(nodes@)[before.len() as int] == callee@);
                            }
                        }
                        assert forall|x: Seq<char>| names_of(nodes@).to_set().contains(x) implies universe.contains(x) by {
                            let w = choose|w: int| 0 <= w < names_of(nodes@).len() && names_of(nodes@)[w] == x;
                            assert(universe.contains(nodes@[w].0@));
                        }
                        names_of(nodes@).unique_seq_to_set();
                        vstd::set_lib::lemma_len_subset(names_of(nodes@).to_set(), universe);
                    }
                }
                c = c + 1;
            }
            i = i + 1;
        }
        proof {
            assert forall|n: Seq<char>| names_of(nodes@).contains(n) <==> reachable(dbm, entry, n) by {
                if names_of(nodes@).contains(n) {
                    let w = choose|w: int| 0 <= w < names_of(nodes@).len() && names_of(nodes@)[w] == n;
                    assert(reachable(dbm, entry, nodes@[w].0@));
                }
                if reachable(dbm, entry, n) {
                    assert(names_of(nodes@)[0] == entry);
                    assert forall|a: Seq<char>, b: Seq<char>| names_of(nodes@).contains(a) && #[trigger] calls_to(dbm, a, b)
                        implies names_of(nodes@).contains(b) by {
                        let w = choose|w: int| 0 <= w < names_of(nodes@).len() && names_of(nodes@)[w] == a;
                        assert(node_for(dbm, nodes@[w].0@, nodes@[w].1));
                        let ci = choose|ci: int| 0 <= ci < dbm[a].calls@.len() && #[trigger] dbm[a].calls@[ci].function_name@ == b;
                        assert(nodes@[w].1.calls@[ci] == dbm[a].calls@[ci]);
                    }
                    lemma_closed_holds_reachable(dbm, entry, names_of(nodes@), n);
                }
            }
        }
        let g = CallGraph { nodes, entry_point: entry_point.to_string() };
        proof {
            g.lemma_built_is_wf(dbm);
        }
        g
    }

    /// The graph is well formed: the entry comes first, names are unique, and
    /// every callee of a node is itself a node.
    pub closed spec fn wf(&self) -> bool {
        &&& self.nodes@.len() > 0
        &&& self.nodes@[0].0@ == self.entry_point@
        &&& names_of(self.nodes@).no_duplicates()
        &&& forall|k: int, c: int|
            #![trigger self.nodes@[k].1.calls@[c]]
            0 <= k < self.nodes@.len() && 0 <= c < self.nodes@[k].1.calls@.len() ==> names_of(
                self.nodes@,
            ).contains(self.nodes@[k].1.calls@[c].function_name@)
        &&& forall|k: int|
            0 <= k < self.nodes@.len() ==> graph_reachable(self.nodes@, self.entry_point@, #[trigger] self.nodes@[k].0@)
    }

    /// A graph built from a database is well formed.
    pub proof fn lemma_built_is_wf(&self, db: Map<Seq<char>, Definition>)
        requires
            is_call_graph(db, self.entry_view(), self.nodes_view()),
        ensures
            self.wf(),
    {
        assert forall|k: int, c: int|
            #![trigger self.nodes@[k].1.calls@[c]]
            0 <= k < self.nodes@.len() && 0 <= c < self.nodes@[k].1.calls@.len() implies names_of(
                self.nodes@,
            ).contains(self.nodes@[k].1.calls@[c].function_name@) by {
            let a = self.nodes@[k].0@;
            let b = self.nodes@[k].1.calls@[c].function_name@;
            assert(node_for(db, a, self.nodes@[k].1));
            assert(db.contains_key(a));
            assert(db[a].calls@[c].function_name@ == b);
            assert(names_of(self.nodes@)[k] == a);
            assert(reachable(db, self.entry_point@, a));
            lemma_reach_step(db, self.entry_point@, a, b);
        }
        assert forall|k: int| 0 <= k < self.nodes@.len() implies graph_reachable(
            self.nodes@,
            self.entry_point@,
            #[trigger] self.nodes@[k].0@,
        ) by {
            assert(names_of(self.nodes@)[k] == self.nodes@[k].0@);
            let n = self.nodes@[k].0@;
            assert(names_of(self.nodes@).contains(n));
            assert(reachable(db, self.entry_point@, n));
            let p = choose|p: Seq<Seq<char>>| #[trigger] is_call_path(db, p) && p[0] == self.entry_point@ && p.last() == n;
            assert forall|i: int| 0 <= i < p.len() - 1 implies graph_calls(self.nodes@, #[trigger] p[i], p[i + 1]) by {
                let q = p.subrange(0, i + 1);
                assert forall|t: int| 0 <= t < q.len() - 1 implies calls_to(db, #[trigger] q[t], q[t + 1]) by {
                    assert(q[t] == p[t] && q[t + 1] == p[t + 1]);
                    assert(calls_to(db, p[t], p[t + 1]));
                }
                assert(is_call_path(db, q));
                assert(q[0] == self.entry_point@ && q.last() == p[i]);
                assert(reachable(db, self.entry_point@, p[i]));
                let w = choose|w: int| 0 <= w < names_of(self.nodes@).len() && names_of(self.nodes@)[w] == p[i];
                assert(node_for(db, self.nodes@[w].0@, self.nodes@[w].1));
                assert(calls_to(db, p[i], p[i + 1]));
                let ci = choose|ci: int| 0 <= ci < db[p[i]].calls@.len() && #[trigger] db[p[i]].calls@[ci].function_name@ == p[i + 1];
                assert(self.nodes@[w].1.calls@[ci] == db[p[i]].calls@[ci]);
            }
            assert(is_graph_path(self.nodes@, p));
        }
    }

    /// The name of the entry point.
    pub(crate) fn entry_name(&self) -> (r: &String)
        ensures
            r@ == self.entry_view(),
    {
        &self.entry_point
    }

    pub fn node_count(&self) -> (r: usize)
        ensures
            r == self.nodes_view().len(),
    {
        self.nodes.len()
    }

    pub fn edge_count(&self) -> (r: usize)
        requires
            total_calls(self.nodes_view()) <= usize::MAX,
        ensures
            r == total_calls(self.nodes_view()),
    {
        let mut total: usize = 0;
        let mut i: usize = 0;
        while i < self.nodes.len()
            invariant
                i <= self.nodes@.len(),
                total == total_calls(self.nodes@.subrange(0, i as int)),
                total_calls(self.nodes@) <= usize::MAX,
            decreases self.nodes@.len() - i,
        {
            proof {
                assert(self.nodes@.subrange(0, i + 1).drop_last() =~= self.nodes@.subrange(0, i as int));
                lemma_total_calls_prefix(self.nodes@, i + 1);
            }
            total = total + self.nodes[i].1.calls.len();
            i = i + 1;
        }
        assert(self.nodes@.subrange(0, i as int) =~= self.nodes@);
        total
    }

    /// How many nodes are external stand-ins.
    pub fn external_count(&self) -> (r: usize)
        ensures
            r == count_external(self.nodes_view()),
    {
        let marker = "extern".to_string();
        let mut n: usize = 0;
        let mut i: usize = 0;
        while i < self.nodes.len()
            invariant
                i <= self.nodes@.len(),
                marker@ == "extern"@,
                n == count_external(self.nodes@.subrange(0, i as int)),
                n <= i,
            decreases self.nodes@.len() - i,
        {
            proof {
                assert(self.nodes@.subrange(0, i + 1).drop_last() =~= self.nodes@.subrange(0, i as int));
            }
            if self.nodes[i].1.function.signature.return_type == marker {
                n = n + 1;
            }
            i = i + 1;
        }
        assert(self.nodes@.subrange(0, i as int) =~= self.nodes@);
        n
    }

    /// How many nodes have a static definition.
    pub fn static_count(&self) -> (r: usize)
        ensures
            r == count_static(self.nodes_view()),
    {
        let mut n: usize = 0;
        let mut i: usize = 0;
        while i < self.nodes.len()
            invariant
                i <= self.nodes@.len(),
                n == count_static(self.nodes@.subrange(0, i as int)),
                n <= i,
            decreases self.nodes@.len() - i,
        {
            proof {
                assert(self.nodes@.subrange(0, i + 1).drop_last() =~= self.nodes@.subrange(0, i as int));
            }
            if self.nodes[i].1.function.is_static {
                n = n + 1;
            }
            i = i + 1;
        }
        assert(self.nodes@.subrange(0, i as int) =~= self.nodes@);
        n
    }

    /// The node named `name`.
    pub fn get_node(&self, name: &str) -> (r: Option<&CallGraphNode>)
        ensures
            r is Some <==> names_of(self.nodes_view()).contains(name@),
            r matches Some(n) ==> exists|i: int|
                0 <= i < self.nodes_view().len() && self.nodes_view()[i].0@ == name@ && *n
                    == #[trigger] self.nodes_view()[i].1,
    {
        let key = name.to_string();
        let mut j: usize = 0;
        while j < self.nodes.len()
            invariant
                j <= self.nodes@.len(),
                key@ == name@,
                forall|k: int| 0 <= k < j ==> self.nodes@[k].0@ != name@,
            decreases self.nodes@.len() - j,
        {
            if self.nodes[j].0 == key {
                assert(names_of(self.nodes@)[j as int] == name@);
                return Some(&self.nodes[j].1);
            }
            j = j + 1;
        }
        assert forall|k: int| 0 <= k < names_of(self.nodes@).len() implies names_of(self.nodes@)[k] != name@ by {
            assert(names_of(self.nodes@)[k] == self.nodes@[k].0@);
        }
        None
    }

    /// Every node with its name, in order of discovery.
    pub fn iter_nodes(&self) -> (r: Vec<(&String, &CallGraphNode)>)
        ensures
            r@.len() == self.nodes_view().len(),
            forall|i: int|
                0 <= i < r@.len() ==> *(#[trigger] r@[i]).0 == self.nodes_view()[i].0 && *r@[i].1
                    == self.nodes_view()[i].1,
    {
        let mut r: Vec<(&String, &CallGraphNode)> = Vec::new();
        let mut i: usize = 0;
        while i < self.nodes.len()
            invariant
                i <= self.nodes@.len(),
                r@.len() == i,
                forall|k: int|
                    0 <= k < i ==> *(#[trigger] r@[k]).0 == self.nodes@[k].0 && *r@[k].1
                        == self.nodes@[k].1,
            decreases self.nodes@.len() - i,
        {
            r.push((&self.nodes[i].0, &self.nodes[i].1));
            i = i + 1;
        }
        r
    }
}

proof fn lemma_total_calls_prefix(nodes: Seq<(String, CallGraphNode)>, i: int)
    requires
        0 <= i <= nodes.len(),
    ensures
        total_calls(nodes.subrange(0, i)) <= total_calls(nodes),
    decreases nodes.len() - i,
{
    if i < nodes.len() {
        lemma_total_calls_prefix(nodes, i + 1);
        assert(nodes.subrange(0, i + 1).drop_last() =~= nodes.subrange(0, i));
    } else {
        assert(nodes.subrange(0, i) =~= nodes);
    }
}

/// The number of marks still unvisited.
spec fn unvisited(marks: Seq<u8>) -> nat
    decreases marks.len(),
{
    if marks.len() == 0 {
        0
    } else {
        unvisited(marks.drop_last()) + if marks.last() == 0u8 { 1nat } else { 0nat }
    }
}

/// Marks only move away from unvisited: the count of unvisited ones never grows,
/// and drops where one of them moved.
proof fn lemma_unvisited_le(a: Seq<u8>, b: Seq<u8>)
    requires
        a.len() == b.len(),
        forall|j: int| 0 <= j < a.len() && a[j] != 0 ==> b[j] != 0,
    ensures
        unvisited(b) <= unvisited(a),
        (exists|j: int| 0 <= j < a.len() && a[j] == 0 && b[j] != 0) ==> unvisited(b) < unvisited(a),
    decreases a.len(),
{
    if a.len() > 0 {
        let n = a.len() - 1;
        assert forall|j: int| 0 <= j < a.drop_last().len() && a.drop_last()[j] != 0 implies b.drop_last()[j] != 0 by {
            assert(a.drop_last()[j] == a[j] && b.drop_last()[j] == b[j]);
        }
        lemma_unvisited_le(a.drop_last(), b.drop_last());
        if exists|j: int| 0 <= j < a.len() && a[j] == 0 && b[j] != 0 {
            let j = choose|j: int| 0 <= j < a.len() && a[j] == 0 && b[j] != 0;
            if j < n {
                assert(a.drop_last()[j] == a[j] && b.drop_last()[j] == b[j]);
            }
        }
    }
}

/// The names held by a list of strings.
pub open spec fn string_views(v: Seq<String>) -> Seq<Seq<char>> {
    v.map_values(|s: String| s@)
}

/// Depth-first state shared by the visits: `marks[j]` is 0 for a node not yet
/// visited, 1 for one on the current path, 2 for one finished; `done` lists the
/// finished ones, once each.
spec fn dfs_state(names: Seq<Seq<char>>, marks: Seq<u8>, done: Seq<String>) -> bool {
    &&& marks.len() == names.len()
    &&& forall|j: int| 0 <= j < marks.len() ==> #[trigger] marks[j] <= 2
    &&& forall|j: int| 0 <= j < marks.len() ==> (#[trigger] marks[j] == 2 <==> string_views(done).contains(names[j]))
    &&& string_views(done).no_duplicates()
    &&& forall|t: Seq<char>| string_views(done).contains(t) ==> names.contains(t)
}

/// `name` occurs among the first `a` entries of `done`.
pub open spec fn placed_before(done: Seq<String>, a: int, name: Seq<char>) -> bool {
    exists|b: int| 0 <= b < a && (#[trigger] done[b])@ == name
}

/// How a visit may change the marks: unvisited ones may finish, nothing else moves.
spec fn marks_advance(a: Seq<u8>, b: Seq<u8>) -> bool {
    &&& a.len() == b.len()
    &&& forall|j: int| 0 <= j < a.len() && #[trigger] a[j] != 0 ==> b[j] == a[j]
    &&& forall|j: int| 0 <= j < a.len() && #[trigger] b[j] == 1 ==> a[j] == 1
}

impl CallGraph {
    /// Every callee of a finished node is visited or on the current path.
    spec fn done_closed(&self, marks: Seq<u8>) -> bool {
        forall|j: int, c: int, k: int|
            #![trigger marks[j], self.nodes@[j].1.calls@[c], self.nodes@[k]]
            0 <= j < self.nodes@.len() && 0 <= c < self.nodes@[j].1.calls@.len() && 0 <= k
                < self.nodes@.len() && marks[j] == 2 && self.nodes@[k].0@ == self.nodes@[j].1.calls@[c].function_name@
                ==> marks[k] != 0
    }

    /// `stack` lists the nodes on the current path, each calling the next, the
    /// last calling `idx`; they are exactly the nodes marked 1.
    spec fn on_path(&self, stack: Seq<int>, marks: Seq<u8>, idx: int) -> bool {
        &&& forall|t: int| 0 <= t < stack.len() ==> 0 <= #[trigger] stack[t] < self.nodes@.len() && marks[stack[t]] == 1
        &&& forall|j: int| 0 <= j < marks.len() && #[trigger] marks[j] == 1 ==> stack.contains(j)
        &&& forall|t: int|
            0 <= t < stack.len() - 1 ==> graph_calls(self.nodes@, self.nodes@[#[trigger] stack[t]].0@, self.nodes@[stack[t + 1]].0@)
        &&& stack.len() > 0 ==> graph_calls(self.nodes@, self.nodes@[stack.last()].0@, self.nodes@[idx].0@)
    }

    /// Each call of a finished node goes to a node finished before it, or to
    /// one from which the caller can be reached again.
    spec fn post_ordered(&self, done: Seq<String>) -> bool {
        forall|a: int, j: int, c: int|
            #![trigger done[a], self.nodes@[j].1.calls@[c]]
            0 <= a < done.len() && 0 <= j < self.nodes@.len() && self.nodes@[j].0@ == done[a]@ && 0 <= c
                < self.nodes@[j].1.calls@.len() ==> placed_before(done, a, self.nodes@[j].1.calls@[c].function_name@)
                || graph_reachable(self.nodes@, self.nodes@[j].1.calls@[c].function_name@, done[a]@)
    }

    proof fn lemma_stack_reaches(&self, stack: Seq<int>, marks: Seq<u8>, idx: int, t: int)
        requires
            self.on_path(stack, marks, idx),
            0 <= idx < self.nodes@.len(),
            0 <= t < stack.len(),
        ensures
            graph_reachable(self.nodes@, self.nodes@[stack[t]].0@, self.nodes@[idx].0@),
    {
        let len = stack.len();
        let q = Seq::new((len - t + 1) as nat, |u: int| if u < len - t { self.nodes@[stack[t + u]].0@ } else { self.nodes@[idx].0@ });
        assert forall|u: int| 0 <= u < q.len() - 1 implies graph_calls(self.nodes@, #[trigger] q[u], q[u + 1]) by {
            if u < len - t - 1 {
                assert(graph_calls(self.nodes@, self.nodes@[stack[t + u]].0@, self.nodes@[stack[t + u + 1]].0@));
            }
        }
        assert(is_graph_path(self.nodes@, q));
    }

    proof fn lemma_same_name(&self, a: int, b: int)
        requires
            self.wf(),
            0 <= a < self.nodes@.len(),
            0 <= b < self.nodes@.len(),
            self.nodes@[a].0@ == self.nodes@[b].0@,
        ensures
            a == b,
    {
        assert(names_of(self.nodes@)[a] == self.nodes@[a].0@);
        assert(names_of(self.nodes@)[b] == self.nodes@[b].0@);
    }

    /// Along a path from the entry, every name is a finished node.
    proof fn lemma_path_done(&self, marks: Seq<u8>, p: Seq<Seq<char>>, i: int)
        requires
            self.wf(),
            marks.len() == self.nodes@.len(),
            self.done_closed(marks),
            forall|j: int| 0 <= j < marks.len() ==> #[trigger] marks[j] == 0 || marks[j] == 2,
            marks[0] == 2,
            is_graph_path(self.nodes@, p),
            p[0] == self.entry_point@,
            0 <= i < p.len(),
        ensures
            exists|t: int| 0 <= t < self.nodes@.len() && self.nodes@[t].0@ == p[i] && marks[t] == 2,
        decreases i,
    {
        if i == 0 {
            assert(self.nodes@[0].0@ == p[0] && marks[0] == 2);
        } else {
            self.lemma_path_done(marks, p, i - 1);
            let t = choose|t: int| 0 <= t < self.nodes@.len() && self.nodes@[t].0@ == p[i - 1] && marks[t] == 2;
            assert(graph_calls(self.nodes@, p[i - 1], p[i]));
            let (j, c) = choose|j: int, c: int|
                0 <= j < self.nodes@.len() && 0 <= c < self.nodes@[j].1.calls@.len() && self.nodes@[j].0@ == p[i - 1]
                    && #[trigger] self.nodes@[j].1.calls@[c].function_name@ == p[i];
            self.lemma_same_name(j, t);
            assert(names_of(self.nodes@).contains(self.nodes@[j].1.calls@[c].function_name@));
            let k = choose|k: int| 0 <= k < names_of(self.nodes@).len() && names_of(self.nodes@)[k] == p[i];
            assert(self.nodes@[k].0@ == p[i]);
            assert(marks[k] != 0);
        }
    }

    /// The index of the node named `name`, if there is one.
    fn index_of(&self, name: &String) -> (r: Option<usize>)
        ensures
            r is None <==> !names_of(self.nodes@).contains(name@),
            r matches Some(i) ==> i < self.nodes@.len() && self.nodes@[i as int].0@ == name@,
    {
        let mut j: usize = 0;
        while j < self.nodes.len()
            invariant
                j <= self.nodes@.len(),
                forall|k: int| 0 <= k < j ==> self.nodes@[k].0@ != name@,
            decreases self.nodes@.len() - j,
        {
            if self.nodes[j].0 == *name {
                assert(names_of(self.nodes@)[j as int] == name@);
                return Some(j);
            }
            j = j + 1;
        }
        assert forall|k: int| 0 <= k < names_of(self.nodes@).len() implies names_of(self.nodes@)[k] != name@ by {
            assert(names_of(self.nodes@)[k] == self.nodes@[k].0@);
        }
        None
    }

    /// Visits node `idx` and, first, every callee not yet visited nor on the
    /// current path; then appends `idx`'s name to `done`.
    fn visit(&self, idx: usize, marks: &mut Vec<u8>, done: &mut Vec<String>, Ghost(stack): Ghost<Seq<int>>)
        requires
            self.wf(),
            idx < self.nodes@.len(),
            dfs_state(names_of(self.nodes@), old(marks)@, old(done)@),
            old(marks)@[idx as int] == 0,
            self.done_closed(old(marks)@),
            self.on_path(stack, old(marks)@, idx as int),
            self.post_ordered(old(done)@),
        ensures
            dfs_state(names_of(self.nodes@), final(marks)@, final(done)@),
            self.done_closed(final(marks)@),
            self.post_ordered(final(done)@),
            old(done)@.is_prefix_of(final(done)@),
            marks_advance(old(marks)@, final(marks)@),
            final(marks)@[idx as int] == 2,
            unvisited(final(marks)@) < unvisited(old(marks)@),
            final(done)@.len() > 0,
            final(done)@.last()@ == self.nodes@[idx as int].0@,
        decreases unvisited(old(marks)@),
    {
        let ghost names = names_of(self.nodes@);
        let ghost m0 = marks@;
        marks.set(idx, 1);
        proof {
            lemma_unvisited_le(m0, marks@);
            assert(names[idx as int] == self.nodes@[idx as int].0@);
        }
        let mut c: usize = 0;
        while c < self.nodes[idx].1.calls.len()
            invariant
                self.wf(),
                names == names_of(self.nodes@),
                idx < self.nodes@.len(),
                c <= self.nodes@[idx as int].1.calls@.len(),
                dfs_state(names, marks@, done@),
                marks@.len() == m0.len(),
                m0 == old(marks)@,
                marks@[idx as int] == 1,
                forall|j: int| 0 <= j < m0.len() && #[trigger] m0[j] != 0 ==> marks@[j] == m0[j],
                forall|j: int| 0 <= j < m0.len() && j != idx && #[trigger] marks@[j] == 1 ==> m0[j] == 1,
                unvisited(marks@) < unvisited(m0),
                self.done_closed(marks@),
                self.post_ordered(done@),
                old(done)@.is_prefix_of(done@),
                forall|t: int| 0 <= t < stack.len() ==> 0 <= #[trigger] stack[t] < self.nodes@.len() && marks@[stack[t]] == 1,
                forall|j: int| 0 <= j < marks@.len() && j != idx && #[trigger] marks@[j] == 1 ==> stack.contains(j),
                self.on_path(stack, old(marks)@, idx as int),
                forall|c2: int, k: int|
                    #![trigger self.nodes@[idx as int].1.calls@[c2], self.nodes@[k]]
                    0 <= c2 < c && 0 <= k < self.nodes@.len() && self.nodes@[k].0@
                        == self.nodes@[idx as int].1.calls@[c2].function_name@ ==> marks@[k] != 0,
            decreases self.nodes@[idx as int].1.calls@.len() - c,
        {
            let callee = &self.nodes[idx].1.calls[c].function_name;
            proof {
                assert(names_of(self.nodes@).contains(self.nodes@[idx as int].1.calls@[c as int].function_name@));
            }
            let ghost mc = marks@;
            match self.index_of(callee) {
                Some(j) => {
                    if marks[j] == 0 {
                        proof {
                            let st = stack.push(idx as int);
                            assert forall|t: int| 0 <= t < st.len() implies 0 <= #[trigger] st[t] < self.nodes@.len() && marks@[st[t]] == 1 by {
                                if t < stack.len() {
                                    assert(st[t] == stack[t]);
                                }
                            }
                            assert forall|k: int| 0 <= k < marks@.len() && #[trigger] marks@[k] == 1 implies st.contains(k) by {
                                if k == idx {
                                    assert(st[stack.len() as int] == k);
                                } else {
                                    let t = choose|t: int| 0 <= t < stack.len() && stack[t] == k;
                                    assert(st[t] == k);
                                }
                            }
                            assert forall|t: int| 0 <= t < st.len() - 1 implies graph_calls(self.nodes@, self.nodes@[#[trigger] st[t]].0@, self.nodes@[st[t + 1]].0@) by {
                                if t < stack.len() - 1 {
                                    assert(st[t] == stack[t] && st[t + 1] == stack[t + 1]);
                                    assert(graph_calls(self.nodes@, self.nodes@[stack[t]].0@, self.nodes@[stack[t + 1]].0@));
                                } else {
                                    assert(st[t] == stack.last() && st[t + 1] == idx);
                                }
                            }
                            assert(self.nodes@[idx as int].1.calls@[c as int].function_name@ == self.nodes@[j as int].0@);
                            assert(graph_calls(self.nodes@, self.nodes@[idx as int].0@, self.nodes@[j as int].0@));
                            assert(self.on_path(st, marks@, j as int));
                        }
                        self.visit(j, marks, done, Ghost(stack.push(idx as int)));
                        proof {
                            lemma_unvisited_le(m0, marks@);
                        }
                    }
                    proof {
                        assert forall|c2: int, k: int|
                            #![trigger self.nodes@[idx as int].1.calls@[c2], self.nodes@[k]]
                            0 <= c2 < c + 1 && 0 <= k < self.nodes@.len() && self.nodes@[k].0@
                                == self.nodes@[idx as int].1.calls@[c2].function_name@ implies marks@[k] != 0 by {
                            if c2 == c {
                                self.lemma_same_name(k, j as int);
                            } else {
                                assert(mc[k] != 0);
                            }
                        }
                    }
                },
                None => {},
            }
            c = c + 1;
        }
        let ghost m2 = marks@;
        let ghost d2 = done@;
        proof {
            assert(!string_views(done@).contains(names[idx as int]));
        }
        done.push(self.nodes[idx].0.clone());
        marks.set(idx, 2);
        proof {
            assert(string_views(done@) =~= string_views(d2).push(names[idx as int]));
            assert forall|j: int| 0 <= j < marks@.len() implies (#[trigger] marks@[j] == 2 <==> string_views(done@).contains(names[j])) by {
                if j != idx {
                    assert(m2[j] == marks@[j]);
                    if string_views(done@).contains(names[j]) && !string_views(d2).contains(names[j]) {
                        assert(names[j] == names[idx as int]);
                    }
                    if string_views(d2).contains(names[j]) {
                        let w = choose|w: int| 0 <= w < string_views(d2).len() && string_views(d2)[w] == names[j];
                        assert(string_views(done@)[w] == names[j]);
                    }
                } else {
                    assert(string_views(done@)[d2.len() as int] == names[idx as int]);
                }
            }
            assert forall|t: Seq<char>| string_views(done@).contains(t) implies names.contains(t) by {
                if !string_views(d2).contains(t) {
                    let w = choose|w: int| 0 <= w < string_views(done@).len() && string_views(done@)[w] == t;
                    if w < d2.len() {
                        assert(string_views(d2)[w] == t);
                    }
                    assert(names[idx as int] == t);
                }
            }
            lemma_unvisited_le(m2, marks@);
            lemma_unvisited_le(m0, marks@);
            assert forall|j: int, c: int, k: int|
                #![trigger marks@[j], self.nodes@[j].1.calls@[c], self.nodes@[k]]
                0 <= j < self.nodes@.len() && 0 <= c < self.nodes@[j].1.calls@.len() && 0 <= k
                    < self.nodes@.len() && marks@[j] == 2 && self.nodes@[k].0@ == self.nodes@[j].1.calls@[c].function_name@
                    implies marks@[k] != 0 by {
                if j != idx {
                    assert(m2[j] == 2);
                    assert(m2[k] != 0);
                }
            }
            assert forall|a: int, j: int, c: int|
                #![trigger done@[a], self.nodes@[j].1.calls@[c]]
                0 <= a < done@.len() && 0 <= j < self.nodes@.len() && self.nodes@[j].0@ == done@[a]@ && 0 <= c
                    < self.nodes@[j].1.calls@.len() implies placed_before(done@, a, self.nodes@[j].1.calls@[c].function_name@)
                    || graph_reachable(self.nodes@, self.nodes@[j].1.calls@[c].function_name@, done@[a]@) by {
                let callee = self.nodes@[j].1.calls@[c].function_name@;
                if a < d2.len() {
                    assert(done@[a] == d2[a]);
                    if placed_before(d2, a, callee) {
                        let b = choose|b: int| 0 <= b < a && (#[trigger] d2[b])@ == callee;
                        assert(done@[b] == d2[b]);
                    }
                } else {
                    assert(done@[a]@ == names[idx as int]);
                    self.lemma_same_name(j, idx as int);
                    assert(names_of(self.nodes@).contains(callee));
                    let k = choose|k: int| 0 <= k < names_of(self.nodes@).len() && names_of(self.nodes@)[k] == callee;
                    assert(self.nodes@[k].0@ == callee);
                    assert(m2[k] != 0);
                    if m2[k] == 2 {
                        assert(string_views(d2).contains(names[k]));
                        let b = choose|b: int| 0 <= b < string_views(d2).len() && string_views(d2)[b] == names[k];
                        assert(done@[b] == d2[b]);
                    } else if k == idx {
                        let q = seq![callee];
                        assert(is_graph_path(self.nodes@, q));
                    } else {
                        let t = choose|t: int| 0 <= t < stack.len() && stack[t] == k;
                        self.lemma_stack_reaches(stack, old(marks)@, idx as int, t);
                    }
                }
            }
            assert(old(done)@.is_prefix_of(done@));
        }
    }

    /// The names in an order where callers come before their callees, except
    /// along a cycle: depth first from the entry point, each node after all of
    /// its callees that are not on the current path, the whole reversed. The
    /// entry point comes first and every node comes exactly once; a callee
    /// comes before its caller only where it can reach that caller again.
    pub fn topological_order(&self) -> (r: Vec<String>)
        requires
            self.wf(),
        ensures
            r@.len() > 0,
            r@[0]@ == self.entry_view(),
            string_views(r@).no_duplicates(),
            forall|i: int| 0 <= i < r@.len() ==> names_of(self.nodes_view()).contains(#[trigger] r@[i]@),
            forall|k: int| 0 <= k < self.nodes_view().len() ==> string_views(r@).contains(#[trigger] self.nodes_view()[k].0@),
            forall|i: int, j: int, c: int|
                #![trigger r@[i], self.nodes_view()[j].1.calls@[c]]
                0 <= i < r@.len() && 0 <= j < self.nodes_view().len() && self.nodes_view()[j].0@ == r@[i]@ && 0 <= c
                    < self.nodes_view()[j].1.calls@.len() ==> (exists|k: int|
                    i < k < r@.len() && (#[trigger] r@[k])@ == self.nodes_view()[j].1.calls@[c].function_name@)
                    || graph_reachable(self.nodes_view(), self.nodes_view()[j].1.calls@[c].function_name@, r@[i]@),
    {
        let ghost names = names_of(self.nodes@);
        let mut marks: Vec<u8> = Vec::new();
        let mut i: usize = 0;
        while i < self.nodes.len()
            invariant
                i <= self.nodes@.len(),
                marks@.len() == i,
                forall|j: int| 0 <= j < i ==> #[trigger] marks@[j] == 0,
            decreases self.nodes@.len() - i,
        {
            marks.push(0);
            i = i + 1;
        }
        let mut done: Vec<String> = Vec::new();
        proof {
            assert(string_views(done@) =~= Seq::<Seq<char>>::empty());
        }
        let ghost zeros = marks@;
        self.visit(0, &mut marks, &mut done, Ghost(Seq::empty()));
        proof {
            assert forall|j: int| 0 <= j < marks@.len() implies #[trigger] marks@[j] == 0 || marks@[j] == 2 by {
                assert(zeros[j] == 0);
            }
            assert forall|k: int| 0 <= k < self.nodes@.len() implies string_views(done@).contains(
                #[trigger] self.nodes@[k].0@,
            ) by {
                let n = self.nodes@[k].0@;
                assert(graph_reachable(self.nodes@, self.entry_point@, n));
                let p = choose|p: Seq<Seq<char>>| #[trigger] is_graph_path(self.nodes@, p) && p[0] == self.entry_point@ && p.last() == n;
                self.lemma_path_done(marks@, p, p.len() - 1);
                let t = choose|t: int| 0 <= t < self.nodes@.len() && self.nodes@[t].0@ == p[p.len() - 1] && marks@[t] == 2;
                self.lemma_same_name(t, k);
                assert(names[k] == n);
            }
        }
        let mut r: Vec<String> = Vec::new();
        let mut k: usize = done.len();
        while k > 0
            invariant
                k <= done@.len(),
                r@.len() == done@.len() - k,
                forall|j: int| 0 <= j < r@.len() ==> #[trigger] r@[j] == done@[done@.len() - 1 - j],
            decreases k,
        {
            k = k - 1;
            r.push(done[k].clone());
        }
        proof {
            assert(names[0] == self.entry_point@);
            assert(r@[0] == done@.last());
            let dv = string_views(done@);
            assert forall|a: int, b: int| 0 <= a < r@.len() && 0 <= b < r@.len() && a != b implies string_views(r@)[a] != string_views(r@)[b] by {
                assert(string_views(r@)[a] == dv[done@.len() - 1 - a]);
                assert(string_views(r@)[b] == dv[done@.len() - 1 - b]);
            }
            assert forall|a: int| 0 <= a < r@.len() implies names.contains(#[trigger] r@[a]@) by {
                assert(dv[done@.len() - 1 - a] == r@[a]@);
                assert(dv.contains(r@[a]@));
            }
            assert forall|k: int| 0 <= k < self.nodes@.len() implies string_views(r@).contains(
                #[trigger] self.nodes@[k].0@,
            ) by {
                let w = choose|w: int| 0 <= w < dv.len() && dv[w] == self.nodes@[k].0@;
                assert(string_views(r@)[done@.len() - 1 - w] == dv[w]);
            }
            assert forall|i: int, j: int, c: int|
                #![trigger r@[i], self.nodes@[j].1.calls@[c]]
                0 <= i < r@.len() && 0 <= j < self.nodes@.len() && self.nodes@[j].0@ == r@[i]@ && 0 <= c
                    < self.nodes@[j].1.calls@.len() implies (exists|k: int|
                    i < k < r@.len() && (#[trigger] r@[k])@ == self.nodes@[j].1.calls@[c].function_name@)
                    || graph_reachable(self.nodes@, self.nodes@[j].1.calls@[c].function_name@, r@[i]@) by {
                let a = done@.len() - 1 - i;
                assert(r@[i] == done@[a]);
                let callee = self.nodes@[j].1.calls@[c].function_name@;
                if placed_before(done@, a, callee) {
                    let b = choose|b: int| 0 <= b < a && (#[trigger] done@[b])@ == callee;
                    let k = done@.len() - 1 - b;
                    assert(r@[k] == done@[b]);
                }
            }
        }
        r
    }
}

/// An entry point with no definition reaches nothing else: the graph is the
/// entry point alone, as an external stand-in, with no edges.
pub proof fn lemma_missing_entry(
    db: Map<Seq<char>, Definition>,
    entry: Seq<char>,
    nodes: Seq<(String, CallGraphNode)>,
)
    requires
        !db.contains_key(entry),
        is_call_graph(db, entry, nodes),
    ensures
        nodes.len() == 1,
        nodes[0].0@ == entry,
        nodes[0].1.function.is_stub_for(entry),
        nodes[0].1.function.is_external(),
        total_calls(nodes) == 0,
{
    assert forall|n: Seq<char>| reachable(db, entry, n) implies n == entry by {
        let p = choose|p: Seq<Seq<char>>| #[trigger] is_call_path(db, p) && p[0] == entry && p.last() == n;
        if p.len() > 1 {
            assert(calls_to(db, p[0], p[1]));
        }
    }
    if nodes.len() > 1 {
        assert(names_of(nodes).contains(names_of(nodes)[1]));
        assert(names_of(nodes)[1] == entry);
        assert(names_of(nodes)[0] == entry);
    }
    assert(node_for(db, nodes[0].0@, nodes[0].1));
    assert(nodes.drop_last().len() == 0);
    assert(total_calls(nodes.drop_last()) == 0);
    assert(nodes.last() == nodes[0]);
}

/// Building twice from the same database and entry point gives the same
/// nodes: the same names, the same number of them, and under each name the
/// same definition and the same calls (so the same edges, with their orders
/// and contexts).
pub proof fn lemma_build_deterministic(
    db: Map<Seq<char>, Definition>,
    entry: Seq<char>,
    a: Seq<(String, CallGraphNode)>,
    b: Seq<(String, CallGraphNode)>,
)
    requires
        is_call_graph(db, entry, a),
        is_call_graph(db, entry, b),
    ensures
        names_of(a).to_set() == names_of(b).to_set(),
        a.len() == b.len(),
        forall|i: int, j: int|
            0 <= i < a.len() && 0 <= j < b.len() && #[trigger] a[i].0@ == #[trigger] b[j].0@ ==> a[i].1.calls@
                == b[j].1.calls@ && a[i].1.function.same_as(&b[j].1.function),
{
    assert forall|n: Seq<char>| names_of(a).to_set().contains(n) <==> names_of(b).to_set().contains(n) by {
        assert(names_of(a).contains(n) <==> reachable(db, entry, n));
        assert(names_of(b).contains(n) <==> reachable(db, entry, n));
    }
    assert(names_of(a).to_set() =~= names_of(b).to_set());
    names_of(a).unique_seq_to_set();
    names_of(b).unique_seq_to_set();
    assert forall|i: int, j: int|
        0 <= i < a.len() && 0 <= j < b.len() && #[trigger] a[i].0@ == #[trigger] b[j].0@ implies a[i].1.calls@
            == b[j].1.calls@ && a[i].1.function.same_as(&b[j].1.function) by {
        assert(node_for(db, a[i].0@, a[i].1));
        assert(node_for(db, b[j].0@, b[j].1));
        if !db.contains_key(a[i].0@) {
            let (fa, fb) = (a[i].1.function, b[j].1.function);
            assert(fa.signature.args@ =~= fb.signature.args@);
            assert(fa.body@ =~= fb.body@);
            assert(fa.source_file@ =~= fb.source_file@);
            assert(fa.calls@ =~= fb.calls@);
            assert(a[i].1.calls@ =~= b[j].1.calls@);
        }
    }
}

} // verus!
