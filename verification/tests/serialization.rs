use jack::ast::{BinaryOp, Expr};
use jack::eval::{eval_expr, Env, EvalError};
use jack::json::{Json, SerializeError};
use jack::number::Number;
use jack::value::{Runtime, Value};
use std::rc::Rc;

const DEPTH: usize = 400;

fn num(x: f64) -> Rc<Expr> {
    Rc::new(Expr::Number(Number::from_bits(x.to_bits())))
}

fn text(s: &str) -> Rc<Expr> {
    Rc::new(Expr::String(Rc::new(s.to_string())))
}

fn array(items: Vec<Rc<Expr>>) -> Rc<Expr> {
    Rc::new(Expr::Array(items))
}

fn dict(pairs: Vec<(&str, Rc<Expr>)>) -> Rc<Expr> {
    Rc::new(Expr::Dict(pairs.into_iter().map(|(k, v)| (k.to_string(), v)).collect()))
}

fn serialize(rt: &mut Runtime, expr: &Rc<Expr>) -> Result<Json, SerializeError> {
    let value = eval_expr(rt, &Env::new(), expr, DEPTH).unwrap();
    value.serialize(rt, DEPTH)
}

fn render(json: &Json) -> String {
    match json {
        Json::Null => "null".to_string(),
        Json::Bool(b) => format!("{}", b),
        Json::Number(n) => format!("{:?}", f64::from_bits(n.to_bits())),
        Json::String(s) => format!("{:?}", s),
        Json::Array(items) => {
            let inner: Vec<String> = items.iter().map(render).collect();
            format!("[{}]", inner.join(","))
        },
        Json::Object(members) => {
            let inner: Vec<String> =
                members.iter().map(|(k, v)| format!("{:?}:{}", k, render(v))).collect();
            format!("{{{}}}", inner.join(","))
        },
    }
}

#[test]
fn simple_values_serialize_as_literals() {
    let mut rt = Runtime::new();
    assert_eq!(render(&serialize(&mut rt, &Rc::new(Expr::Null)).unwrap()), "null");
    assert_eq!(render(&serialize(&mut rt, &Rc::new(Expr::Bool(true))).unwrap()), "true");
    assert_eq!(render(&serialize(&mut rt, &num(1.0)).unwrap()), "1.0");
    assert_eq!(render(&serialize(&mut rt, &text("hi")).unwrap()), "\"hi\"");
}

#[test]
fn array_serializes_in_order() {
    let mut rt = Runtime::new();
    let program = array(vec![num(3.0), num(1.0), array(vec![text("x")]), num(2.0)]);
    assert_eq!(render(&serialize(&mut rt, &program).unwrap()), "[3.0,1.0,[\"x\"],2.0]");
    assert_eq!(render(&serialize(&mut rt, &array(vec![])).unwrap()), "[]");
}

#[test]
fn object_keys_come_sorted() {
    let mut rt = Runtime::new();
    let program = dict(vec![
        ("delta", num(4.0)),
        ("alpha", num(1.0)),
        ("charlie", num(3.0)),
        ("bravo", num(2.0)),
        ("Zulu", num(0.0)),
        ("alphabet", num(5.0)),
        ("", num(6.0)),
    ]);
    assert_eq!(
        render(&serialize(&mut rt, &program).unwrap()),
        "{\"\":6.0,\"Zulu\":0.0,\"alpha\":1.0,\"alphabet\":5.0,\"bravo\":2.0,\"charlie\":3.0,\"delta\":4.0}"
    );
    assert_eq!(render(&serialize(&mut rt, &dict(vec![])).unwrap()), "{}");
}

#[test]
fn keys_are_ordered_by_code_point() {
    let mut rt = Runtime::new();
    let program = dict(vec![
        ("\u{e9}", num(1.0)),
        ("z", num(2.0)),
        ("\u{1f600}", num(3.0)),
        ("\u{ffff}", num(4.0)),
        ("a", num(5.0)),
    ]);
    match serialize(&mut rt, &program).unwrap() {
        Json::Object(members) => {
            let keys: Vec<&str> = members.iter().map(|(k, _)| k.as_str()).collect();
            assert_eq!(keys, vec!["a", "z", "\u{e9}", "\u{ffff}", "\u{1f600}"]);
        },
        other => panic!("unexpected: {:?}", other),
    }
}

#[test]
fn serialization_is_stable() {
    let source = || {
        dict(vec![
            ("b", array(vec![num(1.0), dict(vec![("y", num(0.1)), ("x", text("s"))])])),
            ("a", binary_sum()),
        ])
    };
    let mut first_rt = Runtime::new();
    let first = render(&serialize(&mut first_rt, &source()).unwrap());
    let mut second_rt = Runtime::new();
    let second = render(&serialize(&mut second_rt, &source()).unwrap());
    assert_eq!(first, second);
    assert_eq!(first, "{\"a\":0.30000000000000004,\"b\":[1.0,{\"x\":\"s\",\"y\":0.1}]}");
    let value = eval_expr(&mut first_rt, &Env::new(), &source(), DEPTH).unwrap();
    let again = render(&value.serialize(&mut first_rt, DEPTH).unwrap());
    let once_more = render(&value.serialize(&mut first_rt, DEPTH).unwrap());
    assert_eq!(again, first);
    assert_eq!(once_more, first);
}

fn binary_sum() -> Rc<Expr> {
    Rc::new(Expr::BinaryOp(BinaryOp::Add, num(0.1), num(0.2)))
}

#[test]
fn repeated_key_is_serialized_once() {
    let mut rt = Runtime::new();
    let program = dict(vec![("a", num(1.0)), ("a", num(2.0))]);
    assert_eq!(render(&serialize(&mut rt, &program).unwrap()), "{\"a\":2.0}");
}

#[test]
fn closure_is_not_serialized() {
    let mut rt = Runtime::new();
    let f = Rc::new(Expr::Function(vec![], num(1.0)));
    assert!(matches!(serialize(&mut rt, &f), Err(SerializeError::Closure)));
    let nested = array(vec![num(1.0), dict(vec![("f", f)])]);
    assert!(matches!(serialize(&mut rt, &nested), Err(SerializeError::Closure)));
}

#[test]
fn failing_element_fails_serialization() {
    let mut rt = Runtime::new();
    let nowhere = rt.intern("nowhere");
    let program = array(vec![num(1.0), Rc::new(Expr::Variable(nowhere))]);
    match serialize(&mut rt, &program) {
        Err(SerializeError::Eval(EvalError::UndefinedVariable(name))) => assert_eq!(name, nowhere),
        other => panic!("unexpected: {:?}", other),
    }
}

#[test]
fn serialization_needs_depth_for_collections_only() {
    let mut rt = Runtime::new();
    let one = eval_expr(&mut rt, &Env::new(), &num(1.0), DEPTH).unwrap();
    assert!(matches!(one.serialize(&mut rt, 0), Ok(Json::Number(_))));
    let empty = eval_expr(&mut rt, &Env::new(), &array(vec![]), DEPTH).unwrap();
    assert!(matches!(empty.serialize(&mut rt, 0), Ok(Json::Array(_))));
    let list = eval_expr(&mut rt, &Env::new(), &array(vec![num(1.0)]), DEPTH).unwrap();
    assert!(matches!(
        list.serialize(&mut rt, 0),
        Err(SerializeError::Eval(EvalError::DepthExhausted))
    ));
    assert!(matches!(list.serialize(&mut rt, 2), Ok(Json::Array(_))));
}

#[test]
fn value_clone_shares_the_thunks() {
    let mut rt = Runtime::new();
    let value = eval_expr(&mut rt, &Env::new(), &array(vec![num(1.0), num(2.0)]), DEPTH).unwrap();
    let copy = value.clone();
    let before = rt.thunk_count();
    assert!(Value::try_eq(&mut rt, &value, &copy, DEPTH).unwrap());
    assert_eq!(rt.thunk_count(), before);
    assert_eq!(render(&copy.serialize(&mut rt, DEPTH).unwrap()), "[1.0,2.0]");
}
