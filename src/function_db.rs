use vstd::prelude::*;

verus! {

/// One formal parameter of a function: its optional name and its type as displayed.
#[derive(Debug, Clone, PartialEq, Eq, Hash, Default)]
pub struct Parameter {
    pub name: Option<String>,
    pub param_type: String,
}

/// The signature of a C function.
#[derive(Debug, Clone, PartialEq, Eq, Hash, Default)]
pub struct Signature {
    pub name: String,
    pub return_type: String,
    pub args: Vec<Parameter>,
    pub is_variadic: bool,
}

/// A parsed function definition with its classified call sites.
#[derive(Debug, Clone, PartialEq, Eq, Hash, Default)]
pub struct Definition {
    pub signature: Signature,
    pub body: String,
    pub source_file: String,
    pub is_static: bool,
    pub calls: Vec<CallInfo>,
}

/// The control-flow construct that encloses a call site.
#[derive(Debug, Clone, Copy, PartialEq, Eq, Structural, Hash, Default)]
pub enum CallContext {
    #[default]
    Sequential,
    /// Inside an if/else body, with the id of that branch
    Conditional { branch_id: u32 },
    /// Inside a loop (while, for, do-while)
    Loop,
    /// Inside a switch case, with the id of that case
    Switch { case_id: u32 },
}

/// One call site inside a function body.
#[derive(Debug, Clone, PartialEq, Eq, Hash, Default)]
pub struct CallInfo {
    pub function_name: String,
    pub line: u32,
    pub column: u32,
    pub order: u32,
    pub context: CallContext,
    pub context_depth: u32,
}

/// A call expression with its textual arguments.
#[derive(Debug, Clone, PartialEq, Eq, Hash, Default)]
pub struct Call {
    pub function_name: String,
    pub args: Vec<String>,
    pub assigned_to: Option<String>,
    pub line_number: usize,
}

/// The sentinel that marks a synthesized stand-in for a function without definition.
pub open spec fn extern_marker() -> Seq<char> {
    "extern"@
}

impl Parameter {
    pub fn duplicate(&self) -> (r: Parameter)
        ensures
            r == *self,
    {
        let name = match &self.name {
            Some(n) => Some(n.clone()),
            None => None,
        };
        Parameter { name, param_type: self.param_type.clone() }
    }
}

impl CallInfo {
    pub fn duplicate(&self) -> (r: CallInfo)
        ensures
            r == *self,
    {
        CallInfo {
            function_name: self.function_name.clone(),
            line: self.line,
            column: self.column,
            order: self.order,
            context: self.context,
            context_depth: self.context_depth,
        }
    }
}

/// Copies a list of call sites element by element.
pub fn copy_calls(calls: &Vec<CallInfo>) -> (r: Vec<CallInfo>)
    ensures
        r@ == calls@,
{
    let mut r: Vec<CallInfo> = Vec::new();
    let mut i: usize = 0;
    while i < calls.len()
        invariant
            i <= calls@.len(),
            r@ == calls@.subrange(0, i as int),
        decreases calls@.len() - i,
    {
        r.push(calls[i].duplicate());
        i = i + 1;
        assert(r@ =~= calls@.subrange(0, i as int));
    }
    assert(r@ =~= calls@);
    r
}

impl Signature {
    /// Field-wise equality, with strings and the parameter list compared by content.
    pub open spec fn same_as(&self, o: &Signature) -> bool {
        &&& self.name@ == o.name@
        &&& self.return_type@ == o.return_type@
        &&& self.args@ == o.args@
        &&& self.is_variadic == o.is_variadic
    }

    pub fn duplicate(&self) -> (r: Signature)
        ensures
            r.same_as(self),
    {
        let mut args: Vec<Parameter> = Vec::new();
        let mut i: usize = 0;
        while i < self.args.len()
            invariant
                i <= self.args@.len(),
                args@ == self.args@.subrange(0, i as int),
            decreases self.args@.len() - i,
        {
            args.push(self.args[i].duplicate());
            i = i + 1;
            assert(args@ =~= self.args@.subrange(0, i as int));
        }
        assert(args@ =~= self.args@);
        Signature {
            name: self.name.clone(),
            return_type: self.return_type.clone(),
            args,
            is_variadic: self.is_variadic,
        }
    }
}

impl Definition {
    /// Field-wise equality, with strings and lists compared by content.
    pub open spec fn same_as(&self, o: &Definition) -> bool {
        &&& self.signature.same_as(&o.signature)
        &&& self.body@ == o.body@
        &&& self.source_file@ == o.source_file@
        &&& self.is_static == o.is_static
        &&& self.calls@ == o.calls@
    }

    pub fn duplicate(&self) -> (r: Definition)
        ensures
            r.same_as(self),
    {
        Definition {
            signature: self.signature.duplicate(),
            body: self.body.clone(),
            source_file: self.source_file.clone(),
            is_static: self.is_static,
            calls: copy_calls(&self.calls),
        }
    }

    /// The name under which this definition is stored and called.
    pub open spec fn name(&self) -> Seq<char> {
        self.signature.name@
    }

    /// Whether this definition is a stand-in for a function with no body available.
    pub open spec fn is_external(&self) -> bool {
        self.signature.return_type@ == extern_marker()
    }

    /// The stand-in recorded for a called function that has no definition.
    pub open spec fn is_stub_for(&self, name: Seq<char>) -> bool {
        &&& self.signature.name@ == name
        &&& self.signature.return_type@ == extern_marker()
        &&& self.signature.args@.len() == 0
        &&& !self.signature.is_variadic
        &&& self.body@.len() == 0
        &&& self.source_file@.len() == 0
        &&& !self.is_static
        &&& self.calls@.len() == 0
    }

    /// Builds the stand-in definition for a function known only by name.
    pub fn external_stub(name: &str) -> (r: Definition)
        ensures
            r.is_stub_for(name@),
    {
        Definition {
            signature: Signature {
                name: name.to_string(),
                return_type: "extern".to_string(),
                args: Vec::new(),
                is_variadic: false,
            },
            body: String::new(),
            source_file: String::new(),
            is_static: false,
            calls: Vec::new(),
        }
    }
}

/// A store of function definitions, at most one per name.
#[derive(Debug)]
pub struct FunctionDatabase {
    functions: Vec<(String, Definition)>,
}

impl FunctionDatabase {
    /// The names are unique.
    pub closed spec fn wf(&self) -> bool {
        forall|i: int, j: int|
            0 <= i < j < self.functions@.len() ==> #[trigger] self.functions@[i].0@
                != #[trigger] self.functions@[j].0@
    }

    closed spec fn has_key_at(&self, k: Seq<char>, i: int) -> bool {
        0 <= i < self.functions@.len() && self.functions@[i].0@ == k
    }

    /// The definitions by name.
    pub closed spec fn view(&self) -> Map<Seq<char>, Definition> {
        Map::new(
            |k: Seq<char>| exists|i: int| self.has_key_at(k, i),
            |k: Seq<char>| self.functions@[choose|i: int| self.has_key_at(k, i)].1,
        )
    }

    proof fn lemma_view_at(&self, i: int)
        requires
            self.wf(),
            0 <= i < self.functions@.len(),
        ensures
            self@.contains_key(self.functions@[i].0@),
            self@[self.functions@[i].0@] == self.functions@[i].1,
    {
        let k = self.functions@[i].0@;
        assert(self.has_key_at(k, i));
        let j = choose|j: int| self.has_key_at(k, j);
        assert(j == i);
    }

    /// The index of the entry named `name`, if there is one.
    fn find(&self, name: &str) -> (r: Option<usize>)
        requires
            self.wf(),
        ensures
            r is None <==> !self@.contains_key(name@),
            r matches Some(i) ==> i < self.functions@.len() && self.functions@[i as int].0@
                == name@,
    {
        let key = name.to_string();
        let mut i: usize = 0;
        while i < self.functions.len()
            invariant
                i <= self.functions@.len(),
                key@ == name@,
                forall|j: int| 0 <= j < i ==> self.functions@[j].0@ != name@,
            decreases self.functions@.len() - i,
        {
            if self.functions[i].0 == key {
                assert(self.has_key_at(name@, i as int));
                return Some(i);
            }
            i = i + 1;
        }
        assert(!self@.contains_key(name@)) by {
            if self@.contains_key(name@) {
                let j = choose|j: int| self.has_key_at(name@, j);
                assert(self.functions@[j].0@ != name@);
            }
        }
        None
    }

    pub fn new() -> (r: FunctionDatabase)
        ensures
            r.wf(),
            r@ == Map::<Seq<char>, Definition>::empty(),
    {
        let r = FunctionDatabase { functions: Vec::new() };
        assert(r@ =~= Map::<Seq<char>, Definition>::empty());
        r
    }

    /// Stores `def` under `key`, replacing what was stored there.
    fn store(&mut self, key: String, def: Definition)
        requires
            old(self).wf(),
        ensures
            final(self).wf(),
            final(self)@ == old(self)@.insert(key@, def),
    {
        let ghost old_self = *self;
        match self.find(key.as_str()) {
            Some(i) => {
                let ghost k = key@;
                self.functions.set(i, (key, def));
                assert(self.wf()) by {
                    assert forall|a: int, b: int| 0 <= a < b < self.functions@.len() implies #[trigger] self.functions@[a].0@
                        != #[trigger] self.functions@[b].0@ by {
                        assert(old_self.functions@[a].0@ != old_self.functions@[b].0@);
                    }
                }
                assert forall|k2: Seq<char>| #[trigger] self@.contains_key(k2) <==> old_self@.insert(k, def).contains_key(k2) by {
                    if self@.contains_key(k2) {
                        let j = choose|j: int| self.has_key_at(k2, j);
                        if j != i {
                            assert(old_self.has_key_at(k2, j));
                        }
                    }
                    if old_self@.contains_key(k2) {
                        let j = choose|j: int| old_self.has_key_at(k2, j);
                        assert(self.has_key_at(k2, j));
                    }
                    if k2 == k {
                        assert(self.has_key_at(k2, i as int));
                    }
                }
                assert forall|k2: Seq<char>| #[trigger] self@.contains_key(k2) implies self@[k2] == old_self@.insert(k, def)[k2] by {
                    let j = choose|j: int| self.has_key_at(k2, j);
                    self.lemma_view_at(j);
                    if j != i {
                        old_self.lemma_view_at(j);
                    }
                }
                assert(self@ =~= old_self@.insert(k, def));
            },
            None => {
                let ghost k = key@;
                self.functions.push((key, def));
                let ghost n: int = self.functions@.len() - 1;
                assert(self.wf()) by {
                    assert forall|a: int, b: int| 0 <= a < b < self.functions@.len() implies #[trigger] self.functions@[a].0@
                        != #[trigger] self.functions@[b].0@ by {
                        if b == n {
                            assert(!old_self.has_key_at(k, a));
                        } else {
                            assert(old_self.functions@[a].0@ != old_self.functions@[b].0@);
                        }
                    }
                }
                assert forall|k2: Seq<char>| #[trigger] self@.contains_key(k2) <==> old_self@.insert(k, def).contains_key(k2) by {
                    if self@.contains_key(k2) {
                        let j = choose|j: int| self.has_key_at(k2, j);
                        if j != n {
                            assert(old_self.has_key_at(k2, j));
                        }
                    }
                    if old_self@.contains_key(k2) {
                        let j = choose|j: int| old_self.has_key_at(k2, j);
                        assert(self.has_key_at(k2, j));
                    }
                    if k2 == k {
                        assert(self.has_key_at(k2, n));
                    }
                }
                assert forall|k2: Seq<char>| #[trigger] self@.contains_key(k2) implies self@[k2] == old_self@.insert(k, def)[k2] by {
                    let j = choose|j: int| self.has_key_at(k2, j);
                    self.lemma_view_at(j);
                    if j != n {
                        old_self.lemma_view_at(j);
                    }
                }
                assert(self@ =~= old_self@.insert(k, def));
            },
        }
    }

    /// Adds `def` under its own name, replacing an earlier definition of that name.
    pub fn add_function(&mut self, def: Definition)
        requires
            old(self).wf(),
        ensures
            final(self).wf(),
            final(self)@ == old(self)@.insert(def.name(), def),
    {
        let key = def.signature.name.clone();
        self.store(key, def);
    }

    /// Adds a copy of `def` under its own name.
    pub fn add_function_ref(&mut self, def: &Definition)
        requires
            old(self).wf(),
        ensures
            final(self).wf(),
            final(self)@.dom() == old(self)@.dom().insert(def.name()),
            final(self)@[def.name()].same_as(def),
            forall|k: Seq<char>| k != def.name() && #[trigger] old(self)@.contains_key(k) ==> final(self)@[k] == old(self)@[k],
    {
        let copy = def.duplicate();
        self.add_function(copy);
    }

    /// The definition stored under `name`.
    pub fn get_function_definition(&self, name: &str) -> (r: Option<&Definition>)
        requires
            self.wf(),
        ensures
            r is Some <==> self@.contains_key(name@),
            r matches Some(d) ==> *d == self@[name@],
    {
        match self.find(name) {
            Some(i) => {
                proof {
                    self.lemma_view_at(i as int);
                }
                Some(&self.functions[i].1)
            },
            None => None,
        }
    }

    /// Whether `d` is stored under some name.
    pub open spec fn stores(&self, d: Definition) -> bool {
        exists|k: Seq<char>| #[trigger] self@.contains_key(k) && self@[k] == d
    }

    /// Every stored definition, once each.
    pub fn iter(&self) -> (r: Vec<&Definition>)
        requires
            self.wf(),
        ensures
            r@.len() == self@.dom().len(),
            forall|i: int| 0 <= i < r@.len() ==> self.stores(*#[trigger] r@[i]),
            forall|k: Seq<char>| #[trigger] self@.contains_key(k) ==> exists|i: int| 0 <= i < r@.len() && self@[k] == *r@[i],
    {
        let mut r: Vec<&Definition> = Vec::new();
        let mut i: usize = 0;
        while i < self.functions.len()
            invariant
                self.wf(),
                i <= self.functions@.len(),
                r@.len() == i,
                forall|j: int| 0 <= j < i ==> *r@[j] == #[trigger] self.functions@[j].1,
            decreases self.functions@.len() - i,
        {
            r.push(&self.functions[i].1);
            i = i + 1;
        }
        assert forall|j: int| 0 <= j < r@.len() implies self.stores(*#[trigger] r@[j]) by {
            self.lemma_view_at(j);
            assert(*r@[j] == self.functions@[j].1);
            let k = self.functions@[j].0@;
            assert(self@.contains_key(k) && self@[k] == *r@[j]);
        }
        assert forall|k: Seq<char>| #[trigger] self@.contains_key(k) implies exists|j: int| 0 <= j < r@.len() && self@[k] == *r@[j] by {
            let j = choose|j: int| self.has_key_at(k, j);
            self.lemma_view_at(j);
            assert(*r@[j] == self.functions@[j].1);
        }
        proof {
            self.lemma_dom_len();
        }
        r
    }

    proof fn lemma_dom_len(&self)
        requires
            self.wf(),
        ensures
            self@.dom().len() == self.functions@.len(),
    {
        let keys = self.functions@.map_values(|e: (String, Definition)| e.0@);
        assert(keys.no_duplicates()) by {
            assert forall|i: int, j: int| 0 <= i < keys.len() && 0 <= j < keys.len() && i != j implies keys[i] != keys[j] by {
                assert(keys[i] == self.functions@[i].0@);
                assert(keys[j] == self.functions@[j].0@);
                if i < j {
                    assert(self.functions@[i].0@ != self.functions@[j].0@);
                } else {
                    assert(self.functions@[j].0@ != self.functions@[i].0@);
                }
            }
        }
        keys.unique_seq_to_set();
        assert forall|k: Seq<char>| #[trigger] self@.dom().contains(k) <==> keys.to_set().contains(k) by {
            if self@.dom().contains(k) {
                let j = choose|j: int| self.has_key_at(k, j);
                assert(keys[j] == k);
            }
            if keys.to_set().contains(k) {
                let j = choose|j: int| 0 <= j < keys.len() && keys[j] == k;
                assert(self.has_key_at(k, j));
            }
        }
        assert(self@.dom() =~= keys.to_set());
    }

    /// Whether one of the first `j` entries is named `k`.
    closed spec fn key_among_first(&self, k: Seq<char>, j: int) -> bool {
        exists|i: int| 0 <= i < j && self.has_key_at(k, i)
    }

    /// Adds every definition of `other`; where both hold a name, stores what
    /// `resolve` makes of (the definition here, the one from `other`).
    pub fn merge<F>(&mut self, other: &FunctionDatabase, resolve: F)
        where
            F: Fn(Definition, Definition) -> Definition,
        requires
            old(self).wf(),
            other.wf(),
            forall|a: Definition, b: Definition| resolve.requires((a, b)),
        ensures
            final(self).wf(),
            final(self)@.dom() == old(self)@.dom().union(other@.dom()),
            forall|k: Seq<char>|
                #[trigger] final(self)@.contains_key(k) && !other@.contains_key(k) ==> final(self)@[k]
                    == old(self)@[k],
            forall|k: Seq<char>|
                #[trigger] other@.contains_key(k) && !old(self)@.contains_key(k)
                    ==> final(self)@[k].same_as(&other@[k]),
            forall|k: Seq<char>|
                #[trigger] other@.contains_key(k) && old(self)@.contains_key(k) ==> exists|
                    a: Definition,
                    c: Definition,
                |
                    a.same_as(&old(self)@[k]) && c.same_as(&other@[k]) && #[trigger] resolve.ensures(
                        (a, c),
                        final(self)@[k],
                    ),
    {
        let ghost old_map = self@;
        let mut j: usize = 0;
        while j < other.functions.len()
            invariant
                self.wf(),
                other.wf(),
                j <= other.functions@.len(),
                forall|a: Definition, b: Definition| resolve.requires((a, b)),
                forall|k: Seq<char>|
                    #[trigger] self@.contains_key(k) <==> (old_map.contains_key(k)
                        || other.key_among_first(k, j as int)),
                forall|k: Seq<char>|
                    #[trigger] self@.contains_key(k) && !other.key_among_first(k, j as int)
                        ==> self@[k] == old_map[k],
                forall|k: Seq<char>|
                    #[trigger] other.key_among_first(k, j as int) && !old_map.contains_key(k)
                        ==> self@[k].same_as(&other@[k]),
                forall|k: Seq<char>|
                    #[trigger] other.key_among_first(k, j as int) && old_map.contains_key(k)
                        ==> exists|a: Definition, c: Definition|
                        a.same_as(&old_map[k]) && c.same_as(&other@[k]) && #[trigger] resolve.ensures(
                            (a, c),
                            self@[k],
                        ),
            decreases other.functions@.len() - j,
        {
            let ghost prev = self@;
            let key = other.functions[j].0.clone();
            let ghost kj = key@;
            proof {
                other.lemma_view_at(j as int);
            }
            let incoming = other.functions[j].1.duplicate();
            let ghost wc = incoming;
            let ghost mut wa = incoming;
            let stored = match self.find(key.as_str()) {
                Some(i) => {
                    proof {
                        self.lemma_view_at(i as int);
                    }
                    let current = self.functions[i].1.duplicate();
                    proof {
                        wa = current;
                    }
                    resolve(current, incoming)
                },
                None => incoming,
            };
            let ghost v = stored;
            self.store(key, stored);
            proof {
                assert forall|k: Seq<char>| k != kj implies #[trigger] other.key_among_first(k, j + 1)
                    == other.key_among_first(k, j as int) by {
                    if other.key_among_first(k, j + 1) {
                        let i = choose|i: int| 0 <= i < j + 1 && other.has_key_at(k, i);
                        assert(i != j);
                    }
                }
                assert(other.has_key_at(kj, j as int));
                assert(!other.key_among_first(kj, j as int)) by {
                    if other.key_among_first(kj, j as int) {
                        let i = choose|i: int| 0 <= i < j && other.has_key_at(kj, i);
                        assert(other.functions@[i].0@ != other.functions@[j as int].0@);
                    }
                }
                assert forall|k: Seq<char>|
                    #[trigger] other.key_among_first(k, j + 1) && old_map.contains_key(k)
                        implies exists|a: Definition, c: Definition|
                        a.same_as(&old_map[k]) && c.same_as(&other@[k]) && #[trigger] resolve.ensures(
                            (a, c),
                            self@[k],
                        ) by {
                    if k == kj {
                        assert(prev.contains_key(kj));
                        assert(prev[kj] == old_map[kj]);
                        assert(wa.same_as(&old_map[k]) && wc.same_as(&other@[k]) && resolve.ensures(
                            (wa, wc),
                            self@[k],
                        ));
                    } else {
                        assert(other.key_among_first(k, j as int));
                        assert(self@[k] == prev[k]);
                    }
                }
            }
            j = j + 1;
        }
        proof {
            assert forall|k: Seq<char>| #[trigger] other@.contains_key(k) <==> other.key_among_first(k, other.functions@.len() as int) by {
                if other@.contains_key(k) {
                    let i = choose|i: int| other.has_key_at(k, i);
                    assert(other.has_key_at(k, i));
                }
                if other.key_among_first(k, other.functions@.len() as int) {
                    let i = choose|i: int| 0 <= i < other.functions@.len() && other.has_key_at(k, i);
                    assert(other.has_key_at(k, i));
                }
            }
            assert(self@.dom() =~= old_map.dom().union(other@.dom()));
        }
    }

    /// The names called from the definitions stored here.
    pub closed spec fn callee_names(&self) -> Set<Seq<char>> {
        names_called_in(self.functions@, self.functions@.len() as int)
    }

    /// The callee names form a finite set that holds every name called from a
    /// stored definition.
    pub proof fn lemma_callee_names(&self)
        requires
            self.wf(),
        ensures
            self.callee_names().finite(),
            forall|k: Seq<char>, i: int|
                #![trigger self@[k].calls@[i]]
                self@.contains_key(k) && 0 <= i < self@[k].calls@.len()
                    ==> self.callee_names().contains(self@[k].calls@[i].function_name@),
    {
        lemma_names_called_in(self.functions@, self.functions@.len() as int);
        assert forall|k: Seq<char>, i: int|
            #![trigger self@[k].calls@[i]]
            self@.contains_key(k) && 0 <= i < self@[k].calls@.len()
                implies self.callee_names().contains(self@[k].calls@[i].function_name@) by {
            let j = choose|j: int| self.has_key_at(k, j);
            self.lemma_view_at(j);
        }
    }
}

/// The callee names of the calls of the first `j` entries.
spec fn names_called_in(entries: Seq<(String, Definition)>, j: int) -> Set<Seq<char>>
    decreases j,
{
    if j <= 0 || j > entries.len() {
        Set::empty()
    } else {
        names_called_in(entries, j - 1).union(
            entries[j - 1].1.calls@.map_values(|c: CallInfo| c.function_name@).to_set(),
        )
    }
}

proof fn lemma_names_called_in(entries: Seq<(String, Definition)>, j: int)
    requires
        0 <= j <= entries.len(),
    ensures
        names_called_in(entries, j).finite(),
        forall|e: int, i: int|
            #![trigger entries[e].1.calls@[i]]
            0 <= e < j && 0 <= i < entries[e].1.calls@.len() ==> names_called_in(entries, j).contains(
                entries[e].1.calls@[i].function_name@,
            ),
    decreases j,
{
    if j > 0 {
        lemma_names_called_in(entries, j - 1);
        let here = entries[j - 1].1.calls@.map_values(|c: CallInfo| c.function_name@);
        vstd::seq_lib::seq_to_set_is_finite(here);
        assert forall|e: int, i: int|
            #![trigger entries[e].1.calls@[i]]
            0 <= e < j && 0 <= i < entries[e].1.calls@.len() implies names_called_in(entries, j).contains(
                entries[e].1.calls@[i].function_name@,
            ) by {
            if e == j - 1 {
                assert(here[i] == entries[e].1.calls@[i].function_name@);
                assert(here.to_set().contains(here[i]));
            }
        }
    }
}

} // verus!
