use callgraph::ctypes::{Sign, NumericType, Type, TypeQualifiers};
use callgraph::function_db::{CallContext, CallInfo, Definition, FunctionDatabase, Signature};
use std::rc::Rc;

fn def(name: &str, body: &str) -> Definition {
    Definition {
        signature: Signature { name: name.to_string(), return_type: "int".to_string(), args: vec![], is_variadic: false },
        body: body.to_string(),
        source_file: "x.c".to_string(),
        is_static: false,
        calls: vec![CallInfo {
            function_name: "g".to_string(),
            line: 3,
            column: 4,
            order: 1,
            context: CallContext::Sequential,
            context_depth: 0,
        }],
    }
}

#[test]
fn add_and_look_up() {
    let mut db = FunctionDatabase::new();
    assert!(db.get_function_definition("f").is_none());
    db.add_function(def("f", "one"));
    db.add_function_ref(&def("h", "two"));
    assert_eq!(db.get_function_definition("f").unwrap().body, "one");
    assert_eq!(db.get_function_definition("h").unwrap().body, "two");
    assert_eq!(db.get_function_definition("h").unwrap().calls.len(), 1);
    assert_eq!(db.iter().len(), 2);
}

#[test]
fn last_definition_of_a_name_wins() {
    let mut db = FunctionDatabase::new();
    db.add_function(def("f", "old"));
    db.add_function(def("f", "new"));
    assert_eq!(db.iter().len(), 1);
    assert_eq!(db.get_function_definition("f").unwrap().body, "new");
}

#[test]
fn merge_uses_resolver_on_conflicts_only() {
    let mut a = FunctionDatabase::new();
    a.add_function(def("shared", "mine"));
    a.add_function(def("only_a", "a"));
    let mut b = FunctionDatabase::new();
    b.add_function(def("shared", "theirs"));
    b.add_function(def("only_b", "b"));
    a.merge(&b, |mine: Definition, theirs: Definition| {
        let mut d = mine;
        d.body = format!("{}+{}", d.body, theirs.body);
        d
    });
    assert_eq!(a.iter().len(), 3);
    assert_eq!(a.get_function_definition("shared").unwrap().body, "mine+theirs");
    assert_eq!(a.get_function_definition("only_a").unwrap().body, "a");
    assert_eq!(a.get_function_definition("only_b").unwrap().body, "b");
}

#[test]
fn merge_into_empty_copies_everything() {
    let mut a = FunctionDatabase::new();
    let mut b = FunctionDatabase::new();
    b.add_function(def("f", "x"));
    a.merge(&b, |_mine: Definition, theirs: Definition| theirs);
    assert_eq!(a.get_function_definition("f").unwrap().body, "x");
    assert_eq!(b.iter().len(), 1);
}

#[test]
fn external_stub_fields() {
    let d = Definition::external_stub("puts");
    assert_eq!(d.signature.name, "puts");
    assert_eq!(d.signature.return_type, "extern");
    assert!(d.calls.is_empty());
    assert!(d.body.is_empty());
    assert!(!d.is_static);
}

#[test]
fn definition_copy_keeps_fields() {
    let d = def("f", "body");
    let c = d.duplicate();
    assert_eq!(c, d);
}

#[test]
fn type_qualifier_presets() {
    assert_eq!(TypeQualifiers::none(), TypeQualifiers { is_const: false, is_volatile: false, is_restrict: false });
    assert_eq!(TypeQualifiers::const_qualified(), TypeQualifiers { is_const: true, is_volatile: false, is_restrict: false });
    assert_eq!(TypeQualifiers::cv_qualified(), TypeQualifiers { is_const: true, is_volatile: true, is_restrict: false });
}

#[test]
fn type_predicates_and_lookthrough() {
    let int = Type::signed_int();
    let ptr = Type::const_pointer_to(int.clone());
    assert!(ptr.is_pointer());
    assert!(!ptr.is_void());
    assert!(ptr.get_qualifiers().is_const);
    assert!(Type::void().is_void());
    assert!(matches!(*Type::unsigned_int(), Type::Number(NumericType::Int(Sign::Unsigned))));

    let qualified = Rc::new(Type::Qualified { base: Rc::new(Type::Qualified { base: int.clone(), qualifiers: TypeQualifiers::const_qualified() }), qualifiers: TypeQualifiers::cv_qualified() });
    assert!(qualified.get_qualifiers().is_volatile);
    assert!(matches!(qualified.strip_qualifiers(), Type::Number(NumericType::Int(Sign::Signed))));

    let typedef = Type::Typedef { name: "myint".to_string(), resolved: qualified.clone() };
    assert!(matches!(typedef.resolve_typedef(), Type::Number(NumericType::Int(Sign::Signed))));
    assert!(matches!(typedef.strip_qualifiers(), Type::Typedef { .. }));
    assert!(!typedef.get_qualifiers().is_const);

    let func = Type::Function { return_type: Type::void(), params: vec![], is_variadic: true };
    assert!(func.is_function());
    let p = Type::pointer_to(Type::void(), &TypeQualifiers::cv_qualified());
    assert!(p.get_qualifiers().is_volatile);
}
