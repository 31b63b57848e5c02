use jack::ast::TypeExpr;
use jack::eval::Env;
use jack::symbol::SymbolTable;
use jack::types::Type;
use jack::value::{Runtime, Thunk};
use jack::ast::Expr;
use std::rc::Rc;

#[test]
fn interning_is_idempotent() {
    let mut table = SymbolTable::new();
    let a = table.intern("alpha");
    let b = table.intern("beta");
    let again = table.intern("alpha");
    assert_eq!(a, again);
    assert_ne!(a, b);
    assert_eq!(table.len(), 2);
    assert_eq!(table.intern("beta"), b);
    assert_eq!(table.len(), 2);
}

#[test]
fn symbols_resolve_to_their_names() {
    let mut table = SymbolTable::new();
    let names = ["x", "y", "", "long_name_123", "\u{e9}t\u{e9}"];
    let symbols: Vec<_> = names.iter().map(|name| table.intern(name)).collect();
    for (symbol, name) in symbols.iter().zip(names.iter()) {
        assert_eq!(table.to_str(*symbol), *name);
        assert_eq!(table.resolve(*symbol), Some(*name));
    }
    assert_eq!(table.len(), names.len());
}

#[test]
fn unknown_symbol_has_no_name() {
    let mut first = SymbolTable::new();
    let second = SymbolTable::new();
    let symbol = first.intern("only_here");
    assert_eq!(first.resolve(symbol), Some("only_here"));
    assert_eq!(second.resolve(symbol), None);
}

#[test]
fn runtime_interns_like_a_table() {
    let mut rt = Runtime::new();
    assert_eq!(rt.symbol_count(), 0);
    let x = rt.intern("x");
    let y = rt.intern("y");
    assert_eq!(rt.intern("x"), x);
    assert_ne!(x, y);
    assert_eq!(rt.symbol_count(), 2);
    assert_eq!(rt.resolve(x), Some("x"));
    assert_eq!(rt.resolve(y), Some("y"));
}

#[test]
fn empty_environment_binds_nothing() {
    let mut rt = Runtime::new();
    let x = rt.intern("x");
    assert!(Env::new().lookup(&x).is_none());
}

#[test]
fn extending_an_environment_leaves_it_as_it_was() {
    let mut rt = Runtime::new();
    let x = rt.intern("x");
    let y = rt.intern("y");
    let first = Thunk::new(&mut rt, Env::new(), Rc::new(Expr::Null));
    let second = Thunk::new(&mut rt, Env::new(), Rc::new(Expr::Bool(true)));
    let base = Env::new().with_variable(x, first);
    let extended = base.with_variable(y, second);
    let shadowed = base.with_variable(x, second);
    assert_eq!(base.lookup(&x).unwrap().id, first.id);
    assert!(base.lookup(&y).is_none());
    assert_eq!(extended.lookup(&x).unwrap().id, first.id);
    assert_eq!(extended.lookup(&y).unwrap().id, second.id);
    assert_eq!(shadowed.lookup(&x).unwrap().id, second.id);
    let copy = base.clone();
    assert_eq!(copy.lookup(&x).unwrap().id, first.id);
    assert!(copy.lookup(&y).is_none());
}

#[test]
fn thunks_are_numbered_in_order() {
    let mut rt = Runtime::new();
    let a = Thunk::new(&mut rt, Env::new(), Rc::new(Expr::Null));
    let b = Thunk::partial_new(&mut rt, Rc::new(Expr::Null));
    assert_eq!(a.id, 0);
    assert_eq!(b.id, 1);
    assert_eq!(rt.thunk_count(), 2);
    b.set_env(&mut rt, Env::new());
    assert!(b.force(&mut rt, 5).is_ok());
}

#[test]
fn thunk_is_bound_once_it_has_its_environment() {
    let mut rt = Runtime::new();
    let x = rt.intern("x");
    let late = Thunk::partial_new(&mut rt, Rc::new(Expr::Bool(true)));
    assert!(!late.is_bound(&rt));
    let other = Thunk::new(&mut rt, Env::new(), Rc::new(Expr::Null));
    assert!(other.is_bound(&rt));
    assert!(matches!(other.force(&mut rt, 10), Ok(jack::value::Value::Null)));
    let reader = Thunk::new(
        &mut rt,
        Env::new().with_variable(x, late),
        Rc::new(Expr::Variable(x)),
    );
    assert!(reader.is_bound(&rt));
    late.set_env(&mut rt, Env::new());
    assert!(late.is_bound(&rt));
    assert!(matches!(late.force(&mut rt, 10), Ok(jack::value::Value::Bool(true))));
    assert!(matches!(reader.force(&mut rt, 10), Ok(jack::value::Value::Bool(true))));
}

#[test]
fn set_env_keeps_an_environment_that_is_there() {
    let mut rt = Runtime::new();
    let x = rt.intern("x");
    let one = Thunk::new(&mut rt, Env::new(), Rc::new(Expr::Bool(true)));
    let two = Thunk::new(&mut rt, Env::new(), Rc::new(Expr::Bool(false)));
    let reader = Thunk::partial_new(&mut rt, Rc::new(Expr::Variable(x)));
    reader.set_env(&mut rt, Env::new().with_variable(x, one));
    reader.set_env(&mut rt, Env::new().with_variable(x, two));
    match reader.force(&mut rt, 10).unwrap() {
        jack::value::Value::Bool(b) => assert!(b),
        other => panic!("unexpected: {:?}", other),
    }
}

#[test]
fn types_are_written_out() {
    assert_eq!(Type::Null.to_string(), "Null");
    assert_eq!(Type::Bool.to_string(), "Bool");
    assert_eq!(Type::Number.to_string(), "Number");
    assert_eq!(Type::String.to_string(), "String");
    assert_eq!(Type::Array(Box::new(Type::Number)).to_string(), "Array[Number]");
    assert_eq!(
        Type::Dict(Box::new(Type::Array(Box::new(Type::String)))).to_string(),
        "Dict[Array[String]]"
    );
    assert_eq!(Type::Function(vec![], Box::new(Type::Null)).to_string(), "() => Null");
    assert_eq!(
        Type::Function(vec![Type::Number], Box::new(Type::Bool)).to_string(),
        "(Number) => Bool"
    );
    assert_eq!(
        Type::Function(
            vec![Type::Number, Type::String, Type::Function(vec![Type::Bool], Box::new(Type::Null))],
            Box::new(Type::Dict(Box::new(Type::Number)))
        )
        .to_string(),
        "(Number, String, (Bool) => Null) => Dict[Number]"
    );
}

#[test]
fn type_annotations_are_written_out() {
    assert_eq!(TypeExpr::Simple("Number".to_string()).to_string(), "Number");
    assert_eq!(TypeExpr::Constructor("Array".to_string(), vec![]).to_string(), "Array[]");
    assert_eq!(
        TypeExpr::Constructor("Array".to_string(), vec![TypeExpr::Simple("Number".to_string())])
            .to_string(),
        "Array[Number]"
    );
    assert_eq!(
        TypeExpr::Constructor(
            "Map".to_string(),
            vec![
                TypeExpr::Simple("String".to_string()),
                TypeExpr::Constructor(
                    "Array".to_string(),
                    vec![TypeExpr::Simple("Bool".to_string())]
                ),
                TypeExpr::Simple("Null".to_string()),
            ]
        )
        .to_string(),
        "Map[String, Array[Bool], Null]"
    );
}
