use jack::ast::{BinaryOp, Expr, UnaryOp};
use jack::eval::{eval_expr, Env, EvalError};
use jack::number::Number;
use jack::symbol::Symbol;
use jack::types::Erasure;
use jack::value::{Runtime, Thunk, Value};
use std::rc::Rc;

const DEPTH: usize = 400;

fn num(x: f64) -> Rc<Expr> {
    Rc::new(Expr::Number(Number::from_bits(x.to_bits())))
}

fn text(s: &str) -> Rc<Expr> {
    Rc::new(Expr::String(Rc::new(s.to_string())))
}

fn boolean(b: bool) -> Rc<Expr> {
    Rc::new(Expr::Bool(b))
}

fn var(name: Symbol) -> Rc<Expr> {
    Rc::new(Expr::Variable(name))
}

fn binary(op: BinaryOp, left: Rc<Expr>, right: Rc<Expr>) -> Rc<Expr> {
    Rc::new(Expr::BinaryOp(op, left, right))
}

fn local(name: Symbol, bound: Rc<Expr>, body: Rc<Expr>) -> Rc<Expr> {
    Rc::new(Expr::Local(name, bound, body))
}

fn array(items: Vec<Rc<Expr>>) -> Rc<Expr> {
    Rc::new(Expr::Array(items))
}

fn dict(pairs: Vec<(&str, Rc<Expr>)>) -> Rc<Expr> {
    Rc::new(Expr::Dict(pairs.into_iter().map(|(k, v)| (k.to_string(), v)).collect()))
}

fn function(params: Vec<Symbol>, body: Rc<Expr>) -> Rc<Expr> {
    Rc::new(Expr::Function(params, body))
}

fn call(callee: Rc<Expr>, args: Vec<Rc<Expr>>) -> Rc<Expr> {
    Rc::new(Expr::FunctionCall(callee, args))
}

fn index(collection: Rc<Expr>, at: Rc<Expr>) -> Rc<Expr> {
    Rc::new(Expr::IndexAccess(collection, at))
}

fn field(operand: Rc<Expr>, name: Symbol) -> Rc<Expr> {
    Rc::new(Expr::FieldAccess(operand, name))
}

fn run(rt: &mut Runtime, expr: &Rc<Expr>) -> Result<Value, EvalError> {
    eval_expr(rt, &Env::new(), expr, DEPTH)
}

fn as_f64(value: &Value) -> f64 {
    match value {
        Value::Number(n) => f64::from_bits(n.to_bits()),
        other => panic!("not a number: {:?}", other),
    }
}

fn as_text(value: &Value) -> String {
    match value {
        Value::String(s) => s.as_ref().clone(),
        other => panic!("not a string: {:?}", other),
    }
}

fn as_bool(value: &Value) -> bool {
    match value {
        Value::Bool(b) => *b,
        other => panic!("not a bool: {:?}", other),
    }
}

fn bad_operand(error: &EvalError) -> (String, String) {
    match error {
        EvalError::BadOperandType { expected, actual } => (expected.clone(), actual.clone()),
        other => panic!("not a bad operand type: {:?}", other),
    }
}

#[test]
fn literals_evaluate_to_themselves() {
    let mut rt = Runtime::new();
    assert!(matches!(run(&mut rt, &Rc::new(Expr::Null)), Ok(Value::Null)));
    assert!(as_bool(&run(&mut rt, &boolean(true)).unwrap()));
    assert!(!as_bool(&run(&mut rt, &boolean(false)).unwrap()));
    assert_eq!(as_f64(&run(&mut rt, &num(3.14)).unwrap()), 3.14);
    assert_eq!(as_text(&run(&mut rt, &text("hello")).unwrap()), "hello");
    assert_eq!(rt.thunk_count(), 0);
}

#[test]
fn literal_evaluation_ignores_the_environment() {
    let mut rt = Runtime::new();
    let x = rt.intern("x");
    let thunk = Thunk::new(&mut rt, Env::new(), num(7.0));
    let env = Env::new().with_variable(x, thunk);
    let in_empty = eval_expr(&mut rt, &Env::new(), &num(42.0), DEPTH).unwrap();
    let in_bound = eval_expr(&mut rt, &env, &num(42.0), DEPTH).unwrap();
    assert_eq!(as_f64(&in_empty), 42.0);
    assert_eq!(as_f64(&in_bound), 42.0);
    let s_empty = eval_expr(&mut rt, &Env::new(), &text("a"), DEPTH).unwrap();
    let s_bound = eval_expr(&mut rt, &env, &text("a"), DEPTH).unwrap();
    assert_eq!(as_text(&s_empty), as_text(&s_bound));
}

#[test]
fn shadowing_takes_the_inner_binding() {
    let mut rt = Runtime::new();
    let x = rt.intern("x");
    let program = local(x, num(1.0), local(x, num(2.0), var(x)));
    assert_eq!(as_f64(&run(&mut rt, &program).unwrap()), 2.0);
}

#[test]
fn outer_binding_is_seen_where_it_is_not_shadowed() {
    let mut rt = Runtime::new();
    let x = rt.intern("x");
    let y = rt.intern("y");
    let program = local(x, num(1.0), local(y, num(2.0), var(x)));
    assert_eq!(as_f64(&run(&mut rt, &program).unwrap()), 1.0);
}

#[test]
fn local_closure_may_call_itself() {
    let mut rt = Runtime::new();
    let fact = rt.intern("fact");
    let n = rt.intern("n");
    let body = Rc::new(Expr::If(
        binary(BinaryOp::Eq, var(n), num(0.0)),
        num(1.0),
        binary(
            BinaryOp::Mul,
            var(n),
            call(var(fact), vec![binary(BinaryOp::Sub, var(n), num(1.0))]),
        ),
    ));
    let program = local(fact, function(vec![n], body), call(var(fact), vec![num(5.0)]));
    assert_eq!(as_f64(&run(&mut rt, &program).unwrap()), 120.0);
}

#[test]
fn array_with_failing_element_is_built() {
    let mut rt = Runtime::new();
    let missing = rt.intern("missing");
    let failing = field(dict(vec![]), missing);
    let program = array(vec![num(1.0), failing]);
    let value = run(&mut rt, &program).unwrap();
    assert!(matches!(value, Value::Array(_)));
    assert_eq!(value.erasure(), Erasure::Array);
}

#[test]
fn failing_element_fails_only_when_indexed() {
    let mut rt = Runtime::new();
    let missing = rt.intern("missing");
    let failing = field(dict(vec![]), missing);
    let list = array(vec![num(1.0), failing]);
    let first = run(&mut rt, &index(list.clone(), num(0.0))).unwrap();
    assert_eq!(as_f64(&first), 1.0);
    let second = run(&mut rt, &index(list, num(1.0)));
    match second {
        Err(EvalError::FieldDoesNotExist(name)) => assert_eq!(name, missing),
        other => panic!("unexpected: {:?}", other),
    }
}

#[test]
fn dict_with_failing_entry_is_built() {
    let mut rt = Runtime::new();
    let nowhere = rt.intern("nowhere");
    let program = dict(vec![("good", num(1.0)), ("bad", var(nowhere))]);
    let value = run(&mut rt, &program).unwrap();
    assert_eq!(value.erasure(), Erasure::Dict);
    let good = rt.intern("good");
    let picked = run(&mut rt, &field(program, good)).unwrap();
    assert_eq!(as_f64(&picked), 1.0);
}

#[test]
fn forcing_twice_gives_the_same_value_and_evaluates_once() {
    let mut rt = Runtime::new();
    let thunk = Thunk::new(&mut rt, Env::new(), array(vec![num(1.0), num(2.0), num(3.0)]));
    assert_eq!(rt.thunk_count(), 1);
    let first = thunk.force(&mut rt, DEPTH).unwrap();
    let after_first = rt.thunk_count();
    assert_eq!(after_first, 4);
    let second = thunk.force(&mut rt, DEPTH).unwrap();
    assert_eq!(rt.thunk_count(), after_first);
    assert!(Value::try_eq(&mut rt, &first, &second, DEPTH).unwrap());
    let third = thunk.force(&mut rt, 0).unwrap();
    assert!(Value::try_eq(&mut rt, &first, &third, DEPTH).unwrap());
}

#[test]
fn failed_force_is_tried_again() {
    let mut rt = Runtime::new();
    let thunk = Thunk::new(&mut rt, Env::new(), binary(BinaryOp::Add, num(1.0), num(2.0)));
    assert!(matches!(thunk.force(&mut rt, 0), Err(EvalError::DepthExhausted)));
    let value = thunk.force(&mut rt, DEPTH).unwrap();
    assert_eq!(as_f64(&value), 3.0);
}

#[test]
fn and_short_circuits_on_false() {
    let mut rt = Runtime::new();
    let undefined = rt.intern("undefined");
    let program = binary(BinaryOp::And, boolean(false), var(undefined));
    assert!(!as_bool(&run(&mut rt, &program).unwrap()));
}

#[test]
fn or_short_circuits_on_true() {
    let mut rt = Runtime::new();
    let undefined = rt.intern("undefined");
    let program = binary(BinaryOp::Or, boolean(true), var(undefined));
    assert!(as_bool(&run(&mut rt, &program).unwrap()));
}

#[test]
fn and_evaluates_right_operand_on_true() {
    let mut rt = Runtime::new();
    let undefined = rt.intern("undefined");
    let failing = binary(BinaryOp::And, boolean(true), var(undefined));
    match run(&mut rt, &failing) {
        Err(EvalError::UndefinedVariable(name)) => assert_eq!(name, undefined),
        other => panic!("unexpected: {:?}", other),
    }
    let fine = binary(BinaryOp::And, boolean(true), boolean(false));
    assert!(!as_bool(&run(&mut rt, &fine).unwrap()));
    let both = binary(BinaryOp::And, boolean(true), boolean(true));
    assert!(as_bool(&run(&mut rt, &both).unwrap()));
}

#[test]
fn or_evaluates_right_operand_on_false() {
    let mut rt = Runtime::new();
    let fine = binary(BinaryOp::Or, boolean(false), boolean(true));
    assert!(as_bool(&run(&mut rt, &fine).unwrap()));
    let neither = binary(BinaryOp::Or, boolean(false), boolean(false));
    assert!(!as_bool(&run(&mut rt, &neither).unwrap()));
}

#[test]
fn logical_operands_must_be_bool() {
    let mut rt = Runtime::new();
    let left = run(&mut rt, &binary(BinaryOp::And, num(1.0), boolean(true))).unwrap_err();
    assert_eq!(bad_operand(&left), ("Bool".to_string(), "Number".to_string()));
    let right = run(&mut rt, &binary(BinaryOp::Or, boolean(false), text("x"))).unwrap_err();
    assert_eq!(bad_operand(&right), ("Bool".to_string(), "String".to_string()));
}

#[test]
fn two_parameter_closure_called_with_one_argument() {
    let mut rt = Runtime::new();
    let a = rt.intern("a");
    let b = rt.intern("b");
    let f = function(vec![a, b], var(a));
    let program = call(f, vec![num(1.0)]);
    assert!(matches!(run(&mut rt, &program), Err(EvalError::WrongNumberOfArguments)));
}

#[test]
fn closure_called_with_too_many_arguments() {
    let mut rt = Runtime::new();
    let a = rt.intern("a");
    let f = function(vec![a], var(a));
    let program = call(f, vec![num(1.0), num(2.0)]);
    assert!(matches!(run(&mut rt, &program), Err(EvalError::WrongNumberOfArguments)));
}

#[test]
fn calling_a_number_is_not_callable() {
    let mut rt = Runtime::new();
    let program = call(num(1.0), vec![]);
    assert!(matches!(run(&mut rt, &program), Err(EvalError::NotCallable)));
}

#[test]
fn arguments_are_bound_in_order() {
    let mut rt = Runtime::new();
    let a = rt.intern("a");
    let b = rt.intern("b");
    let f = function(vec![a, b], binary(BinaryOp::Sub, var(a), var(b)));
    let program = call(f, vec![num(10.0), num(3.0)]);
    assert_eq!(as_f64(&run(&mut rt, &program).unwrap()), 7.0);
}

#[test]
fn unused_failing_argument_is_never_evaluated() {
    let mut rt = Runtime::new();
    let a = rt.intern("a");
    let b = rt.intern("b");
    let nowhere = rt.intern("nowhere");
    let f = function(vec![a, b], var(a));
    let program = call(f, vec![num(1.0), var(nowhere)]);
    assert_eq!(as_f64(&run(&mut rt, &program).unwrap()), 1.0);
}

#[test]
fn closure_body_sees_its_defining_scope_only() {
    let mut rt = Runtime::new();
    let f = rt.intern("f");
    let x = rt.intern("x");
    let y = rt.intern("y");
    // local x = 1; local f = function() x; local x = 2; f()
    let captured = local(
        x,
        num(1.0),
        local(f, function(vec![], var(x)), local(x, num(2.0), call(var(f), vec![]))),
    );
    assert_eq!(as_f64(&run(&mut rt, &captured).unwrap()), 1.0);
    // local f = function() y; local y = 2; f()
    let hidden = local(f, function(vec![], var(y)), local(y, num(2.0), call(var(f), vec![])));
    match run(&mut rt, &hidden) {
        Err(EvalError::UndefinedVariable(name)) => assert_eq!(name, y),
        other => panic!("unexpected: {:?}", other),
    }
}

#[test]
fn arguments_are_evaluated_in_the_callers_scope() {
    let mut rt = Runtime::new();
    let f = rt.intern("f");
    let a = rt.intern("a");
    let x = rt.intern("x");
    // local f = function(a) a; local x = 5; f(x)
    let program = local(f, function(vec![a], var(a)), local(x, num(5.0), call(var(f), vec![var(x)])));
    assert_eq!(as_f64(&run(&mut rt, &program).unwrap()), 5.0);
}

#[test]
fn dicts_with_keys_in_different_order_are_equal() {
    let mut rt = Runtime::new();
    let left = dict(vec![("a", num(1.0)), ("b", num(2.0))]);
    let right = dict(vec![("b", num(2.0)), ("a", num(1.0))]);
    assert!(as_bool(&run(&mut rt, &binary(BinaryOp::Eq, left, right)).unwrap()));
}

#[test]
fn dicts_with_different_values_or_keys_differ() {
    let mut rt = Runtime::new();
    let left = dict(vec![("a", num(1.0)), ("b", num(2.0))]);
    let other_value = dict(vec![("a", num(1.0)), ("b", num(3.0))]);
    let other_key = dict(vec![("a", num(1.0)), ("c", num(2.0))]);
    let smaller = dict(vec![("a", num(1.0))]);
    assert!(!as_bool(&run(&mut rt, &binary(BinaryOp::Eq, left.clone(), other_value)).unwrap()));
    assert!(!as_bool(&run(&mut rt, &binary(BinaryOp::Eq, left.clone(), other_key)).unwrap()));
    assert!(!as_bool(&run(&mut rt, &binary(BinaryOp::Eq, left.clone(), smaller)).unwrap()));
    assert!(as_bool(&run(&mut rt, &binary(BinaryOp::NotEq, left, dict(vec![]))).unwrap()));
}

#[test]
fn arrays_of_different_length_differ_without_forcing() {
    let mut rt = Runtime::new();
    let nowhere = rt.intern("nowhere");
    let left = array(vec![num(1.0), num(2.0)]);
    let right = array(vec![num(1.0), num(2.0), num(3.0)]);
    assert!(!as_bool(&run(&mut rt, &binary(BinaryOp::Eq, left, right)).unwrap()));
    let failing = array(vec![var(nowhere)]);
    let longer = array(vec![var(nowhere), var(nowhere)]);
    assert!(!as_bool(&run(&mut rt, &binary(BinaryOp::Eq, failing, longer)).unwrap()));
}

#[test]
fn arrays_are_compared_item_by_item() {
    let mut rt = Runtime::new();
    let left = array(vec![num(1.0), array(vec![text("x")])]);
    let same = array(vec![num(1.0), array(vec![text("x")])]);
    let other = array(vec![num(1.0), array(vec![text("y")])]);
    assert!(as_bool(&run(&mut rt, &binary(BinaryOp::Eq, left.clone(), same)).unwrap()));
    assert!(!as_bool(&run(&mut rt, &binary(BinaryOp::Eq, left.clone(), other.clone())).unwrap()));
    assert!(as_bool(&run(&mut rt, &binary(BinaryOp::NotEq, left, other)).unwrap()));
}

#[test]
fn array_comparison_stops_at_the_first_difference() {
    let mut rt = Runtime::new();
    let nowhere = rt.intern("nowhere");
    let left = array(vec![num(1.0), var(nowhere)]);
    let right = array(vec![num(2.0), var(nowhere)]);
    assert!(!as_bool(&run(&mut rt, &binary(BinaryOp::Eq, left, right)).unwrap()));
    let failing_left = array(vec![var(nowhere)]);
    let fine = array(vec![num(1.0)]);
    match run(&mut rt, &binary(BinaryOp::Eq, failing_left, fine)) {
        Err(EvalError::UndefinedVariable(name)) => assert_eq!(name, nowhere),
        other => panic!("unexpected: {:?}", other),
    }
}

#[test]
fn comparing_closures_fails() {
    let mut rt = Runtime::new();
    let f = function(vec![], num(1.0));
    let g = function(vec![], num(1.0));
    assert!(matches!(
        run(&mut rt, &binary(BinaryOp::Eq, f.clone(), g)),
        Err(EvalError::CannotCompare)
    ));
    assert!(matches!(
        run(&mut rt, &binary(BinaryOp::Eq, f.clone(), num(1.0))),
        Err(EvalError::CannotCompare)
    ));
    assert!(matches!(
        run(&mut rt, &binary(BinaryOp::NotEq, Rc::new(Expr::Null), f.clone())),
        Err(EvalError::CannotCompare)
    ));
    let h = rt.intern("h");
    let itself = local(h, f, binary(BinaryOp::Eq, var(h), var(h)));
    assert!(matches!(run(&mut rt, &itself), Err(EvalError::CannotCompare)));
}

#[test]
fn values_of_different_kinds_differ() {
    let mut rt = Runtime::new();
    assert!(!as_bool(&run(&mut rt, &binary(BinaryOp::Eq, num(1.0), text("1"))).unwrap()));
    assert!(!as_bool(&run(&mut rt, &binary(BinaryOp::Eq, Rc::new(Expr::Null), boolean(false))).unwrap()));
    assert!(!as_bool(&run(&mut rt, &binary(BinaryOp::Eq, array(vec![]), dict(vec![]))).unwrap()));
    assert!(as_bool(&run(&mut rt, &binary(BinaryOp::Eq, Rc::new(Expr::Null), Rc::new(Expr::Null))).unwrap()));
    assert!(as_bool(&run(&mut rt, &binary(BinaryOp::Eq, text("a"), text("a"))).unwrap()));
    assert!(!as_bool(&run(&mut rt, &binary(BinaryOp::Eq, boolean(true), boolean(false))).unwrap()));
}

#[test]
fn numbers_compare_as_ieee_754_does() {
    let mut rt = Runtime::new();
    assert!(as_bool(&run(&mut rt, &binary(BinaryOp::Eq, num(0.0), num(-0.0))).unwrap()));
    assert!(!as_bool(&run(&mut rt, &binary(BinaryOp::Eq, num(f64::NAN), num(f64::NAN))).unwrap()));
    assert!(as_bool(&run(&mut rt, &binary(BinaryOp::NotEq, num(f64::NAN), num(f64::NAN))).unwrap()));
    assert!(as_bool(&run(&mut rt, &binary(BinaryOp::Eq, num(1.5), num(1.5))).unwrap()));
    assert!(!as_bool(&run(&mut rt, &binary(BinaryOp::Eq, num(1.5), num(2.5))).unwrap()));
}

#[test]
fn indexing_past_the_end_of_an_array() {
    let mut rt = Runtime::new();
    let program = index(array(vec![num(1.0), num(2.0)]), num(5.0));
    assert!(matches!(run(&mut rt, &program), Err(EvalError::IndexOutOfBounds(5))));
    let at_length = index(array(vec![num(1.0), num(2.0)]), num(2.0));
    assert!(matches!(run(&mut rt, &at_length), Err(EvalError::IndexOutOfBounds(2))));
    let empty = index(array(vec![]), num(0.0));
    assert!(matches!(run(&mut rt, &empty), Err(EvalError::IndexOutOfBounds(0))));
}

#[test]
fn array_index_is_truncated() {
    let mut rt = Runtime::new();
    let list = array(vec![num(10.0), num(20.0), num(30.0)]);
    assert_eq!(as_f64(&run(&mut rt, &index(list.clone(), num(1.9))).unwrap()), 20.0);
    assert_eq!(as_f64(&run(&mut rt, &index(list.clone(), num(0.5))).unwrap()), 10.0);
    assert_eq!(as_f64(&run(&mut rt, &index(list.clone(), num(-0.0))).unwrap()), 10.0);
    assert_eq!(as_f64(&run(&mut rt, &index(list.clone(), num(-0.5))).unwrap()), 10.0);
    assert_eq!(as_f64(&run(&mut rt, &index(list.clone(), num(2.999))).unwrap()), 30.0);
    assert!(matches!(
        run(&mut rt, &index(list, num(f64::INFINITY))),
        Err(EvalError::IndexOutOfBounds(usize::MAX))
    ));
}

#[test]
fn negative_index_is_out_of_bounds() {
    let mut rt = Runtime::new();
    let list = array(vec![num(1.0), num(2.0)]);
    let minus_one = Rc::new(Expr::UnaryOp(UnaryOp::Neg, num(1.0)));
    assert!(matches!(
        run(&mut rt, &index(list.clone(), minus_one.clone())),
        Err(EvalError::IndexOutOfBounds(_))
    ));
    assert!(matches!(
        run(&mut rt, &index(list.clone(), num(-1.0))),
        Err(EvalError::IndexOutOfBounds(0))
    ));
    assert!(matches!(
        run(&mut rt, &index(list.clone(), num(-3.7))),
        Err(EvalError::IndexOutOfBounds(_))
    ));
    assert!(matches!(
        run(&mut rt, &index(list.clone(), num(f64::NEG_INFINITY))),
        Err(EvalError::IndexOutOfBounds(_))
    ));
    assert!(matches!(
        run(&mut rt, &index(text("abc"), minus_one)),
        Err(EvalError::IndexOutOfBounds(_))
    ));
    assert!(matches!(
        run(&mut rt, &index(text("abc"), num(-2.0))),
        Err(EvalError::IndexOutOfBounds(_))
    ));
    assert_eq!(as_text(&run(&mut rt, &index(text("abc"), num(-0.5))).unwrap()), "a");
}

#[test]
fn negative_index_forces_nothing() {
    let mut rt = Runtime::new();
    let nowhere = rt.intern("nowhere");
    let list = array(vec![var(nowhere)]);
    assert!(matches!(
        run(&mut rt, &index(list, num(-1.0))),
        Err(EvalError::IndexOutOfBounds(_))
    ));
}

#[test]
fn string_is_indexed_by_character() {
    let mut rt = Runtime::new();
    let word = text("h\u{e9}llo\u{1f600}!");
    assert_eq!(as_text(&run(&mut rt, &index(word.clone(), num(0.0))).unwrap()), "h");
    assert_eq!(as_text(&run(&mut rt, &index(word.clone(), num(1.0))).unwrap()), "\u{e9}");
    assert_eq!(as_text(&run(&mut rt, &index(word.clone(), num(2.0))).unwrap()), "l");
    assert_eq!(as_text(&run(&mut rt, &index(word.clone(), num(5.0))).unwrap()), "\u{1f600}");
    assert_eq!(as_text(&run(&mut rt, &index(word.clone(), num(6.0))).unwrap()), "!");
    assert!(matches!(
        run(&mut rt, &index(word, num(7.0))),
        Err(EvalError::IndexOutOfBounds(7))
    ));
    assert!(matches!(
        run(&mut rt, &index(text(""), num(0.0))),
        Err(EvalError::IndexOutOfBounds(0))
    ));
}

#[test]
fn dict_is_indexed_by_key() {
    let mut rt = Runtime::new();
    let d = dict(vec![("a", num(1.0)), ("b", num(2.0))]);
    assert_eq!(as_f64(&run(&mut rt, &index(d.clone(), text("b"))).unwrap()), 2.0);
    let before = rt.symbol_count();
    match run(&mut rt, &index(d.clone(), text("zzz"))) {
        Err(EvalError::FieldDoesNotExist(name)) => {
            assert_eq!(rt.resolve(name), Some("zzz"));
        },
        other => panic!("unexpected: {:?}", other),
    }
    assert_eq!(rt.symbol_count(), before + 1);
    let a = rt.intern("a");
    let known = rt.symbol_count();
    let missing = dict(vec![("b", num(2.0))]);
    match run(&mut rt, &index(missing, text("a"))) {
        Err(EvalError::FieldDoesNotExist(name)) => assert_eq!(name, a),
        other => panic!("unexpected: {:?}", other),
    }
    assert_eq!(rt.symbol_count(), known);
}

#[test]
fn field_access_reads_a_dict() {
    let mut rt = Runtime::new();
    let a = rt.intern("a");
    let c = rt.intern("c");
    let d = dict(vec![("a", num(1.0)), ("b", num(2.0))]);
    assert_eq!(as_f64(&run(&mut rt, &field(d.clone(), a)).unwrap()), 1.0);
    match run(&mut rt, &field(d.clone(), c)) {
        Err(EvalError::FieldDoesNotExist(name)) => assert_eq!(name, c),
        other => panic!("unexpected: {:?}", other),
    }
    let error = run(&mut rt, &field(num(1.0), a)).unwrap_err();
    assert_eq!(bad_operand(&error), ("Dict".to_string(), "Number".to_string()));
}

#[test]
fn field_of_a_symbol_without_a_name_does_not_exist() {
    let mut rt = Runtime::new();
    let stranger = Symbol(12345);
    let d = dict(vec![("a", num(1.0))]);
    match run(&mut rt, &field(d, stranger)) {
        Err(EvalError::FieldDoesNotExist(name)) => assert_eq!(name, stranger),
        other => panic!("unexpected: {:?}", other),
    }
}

#[test]
fn later_entry_of_a_repeated_key_wins() {
    let mut rt = Runtime::new();
    let a = rt.intern("a");
    let d = dict(vec![("a", num(1.0)), ("b", num(5.0)), ("a", num(2.0))]);
    assert_eq!(as_f64(&run(&mut rt, &field(d.clone(), a)).unwrap()), 2.0);
    let two = dict(vec![("b", num(5.0)), ("a", num(2.0))]);
    assert!(as_bool(&run(&mut rt, &binary(BinaryOp::Eq, d, two)).unwrap()));
}

#[test]
fn index_operands_must_have_the_right_kinds() {
    let mut rt = Runtime::new();
    let on_array = run(&mut rt, &index(array(vec![num(1.0)]), text("0"))).unwrap_err();
    assert_eq!(bad_operand(&on_array), ("Number".to_string(), "String".to_string()));
    let on_string = run(&mut rt, &index(text("abc"), boolean(true))).unwrap_err();
    assert_eq!(bad_operand(&on_string), ("Number".to_string(), "Bool".to_string()));
    let on_dict = run(&mut rt, &index(dict(vec![]), num(0.0))).unwrap_err();
    assert_eq!(bad_operand(&on_dict), ("String".to_string(), "Number".to_string()));
    let on_null = run(&mut rt, &index(Rc::new(Expr::Null), num(0.0))).unwrap_err();
    assert_eq!(
        bad_operand(&on_null),
        ("Array or String or Dict".to_string(), "Null".to_string())
    );
    let on_closure = run(&mut rt, &index(function(vec![], num(0.0)), num(0.0))).unwrap_err();
    assert_eq!(
        bad_operand(&on_closure),
        ("Array or String or Dict".to_string(), "Function".to_string())
    );
}

#[test]
fn index_is_evaluated_before_the_collection_is_looked_at() {
    let mut rt = Runtime::new();
    let nowhere = rt.intern("nowhere");
    match run(&mut rt, &index(Rc::new(Expr::Null), var(nowhere))) {
        Err(EvalError::UndefinedVariable(name)) => assert_eq!(name, nowhere),
        other => panic!("unexpected: {:?}", other),
    }
}

#[test]
fn arithmetic_on_numbers() {
    let mut rt = Runtime::new();
    assert_eq!(as_f64(&run(&mut rt, &binary(BinaryOp::Add, num(1.5), num(2.25))).unwrap()), 3.75);
    assert_eq!(as_f64(&run(&mut rt, &binary(BinaryOp::Sub, num(1.5), num(2.25))).unwrap()), -0.75);
    assert_eq!(as_f64(&run(&mut rt, &binary(BinaryOp::Mul, num(1.5), num(2.25))).unwrap()), 3.375);
    assert_eq!(as_f64(&run(&mut rt, &binary(BinaryOp::Div, num(1.0), num(4.0))).unwrap()), 0.25);
    assert_eq!(as_f64(&run(&mut rt, &binary(BinaryOp::Mod, num(7.5), num(2.0))).unwrap()), 1.5);
    assert_eq!(as_f64(&run(&mut rt, &binary(BinaryOp::Mod, num(-7.5), num(2.0))).unwrap()), -1.5);
    assert_eq!(as_f64(&run(&mut rt, &binary(BinaryOp::Mod, num(7.5), num(-2.0))).unwrap()), 1.5);
}

#[test]
fn division_by_zero_is_no_error() {
    let mut rt = Runtime::new();
    let positive = run(&mut rt, &binary(BinaryOp::Div, num(1.0), num(0.0))).unwrap();
    assert_eq!(as_f64(&positive), f64::INFINITY);
    let negative = run(&mut rt, &binary(BinaryOp::Div, num(-1.0), num(0.0))).unwrap();
    assert_eq!(as_f64(&negative), f64::NEG_INFINITY);
    let undefined = run(&mut rt, &binary(BinaryOp::Div, num(0.0), num(0.0))).unwrap();
    assert!(as_f64(&undefined).is_nan());
    let remainder = run(&mut rt, &binary(BinaryOp::Mod, num(1.0), num(0.0))).unwrap();
    assert!(as_f64(&remainder).is_nan());
}

#[test]
fn plus_joins_strings() {
    let mut rt = Runtime::new();
    let joined = run(&mut rt, &binary(BinaryOp::Add, text("foo"), text("bar"))).unwrap();
    assert_eq!(as_text(&joined), "foobar");
    let empty = run(&mut rt, &binary(BinaryOp::Add, text(""), text(""))).unwrap();
    assert_eq!(as_text(&empty), "");
}

#[test]
fn arithmetic_refuses_other_operands() {
    let mut rt = Runtime::new();
    let add = run(&mut rt, &binary(BinaryOp::Add, num(1.0), boolean(true))).unwrap_err();
    assert_eq!(
        bad_operand(&add),
        ("(Number + Number) or (String + String)".to_string(), "Number + Bool".to_string())
    );
    let mixed = run(&mut rt, &binary(BinaryOp::Add, text("a"), num(1.0))).unwrap_err();
    assert_eq!(
        bad_operand(&mixed),
        ("(Number + Number) or (String + String)".to_string(), "String + Number".to_string())
    );
    let sub = run(&mut rt, &binary(BinaryOp::Sub, text("a"), text("b"))).unwrap_err();
    assert_eq!(bad_operand(&sub), ("Number - Number".to_string(), "String - String".to_string()));
    let mul = run(&mut rt, &binary(BinaryOp::Mul, Rc::new(Expr::Null), num(1.0))).unwrap_err();
    assert_eq!(bad_operand(&mul), ("Number * Number".to_string(), "Null * Number".to_string()));
    let div = run(&mut rt, &binary(BinaryOp::Div, array(vec![]), dict(vec![]))).unwrap_err();
    assert_eq!(bad_operand(&div), ("Number / Number".to_string(), "Array / Dict".to_string()));
    let modulo =
        run(&mut rt, &binary(BinaryOp::Mod, function(vec![], num(0.0)), num(1.0))).unwrap_err();
    assert_eq!(
        bad_operand(&modulo),
        ("Number % Number".to_string(), "Function % Number".to_string())
    );
}

#[test]
fn left_operand_is_evaluated_first() {
    let mut rt = Runtime::new();
    let first = rt.intern("first");
    let second = rt.intern("second");
    match run(&mut rt, &binary(BinaryOp::Add, var(first), var(second))) {
        Err(EvalError::UndefinedVariable(name)) => assert_eq!(name, first),
        other => panic!("unexpected: {:?}", other),
    }
}

#[test]
fn unary_operators() {
    let mut rt = Runtime::new();
    let neg = Rc::new(Expr::UnaryOp(UnaryOp::Neg, num(2.5)));
    assert_eq!(as_f64(&run(&mut rt, &neg).unwrap()), -2.5);
    let neg_zero = Rc::new(Expr::UnaryOp(UnaryOp::Neg, num(0.0)));
    assert!(as_f64(&run(&mut rt, &neg_zero).unwrap()).is_sign_negative());
    let not = Rc::new(Expr::UnaryOp(UnaryOp::Not, boolean(true)));
    assert!(!as_bool(&run(&mut rt, &not).unwrap()));
    let bad_neg = run(&mut rt, &Rc::new(Expr::UnaryOp(UnaryOp::Neg, boolean(true)))).unwrap_err();
    assert_eq!(bad_operand(&bad_neg), ("Number".to_string(), "Bool".to_string()));
    let bad_not = run(&mut rt, &Rc::new(Expr::UnaryOp(UnaryOp::Not, num(1.0)))).unwrap_err();
    assert_eq!(bad_operand(&bad_not), ("Bool".to_string(), "Number".to_string()));
}

#[test]
fn if_evaluates_exactly_one_branch() {
    let mut rt = Runtime::new();
    let nowhere = rt.intern("nowhere");
    let taken = Rc::new(Expr::If(boolean(true), num(1.0), var(nowhere)));
    assert_eq!(as_f64(&run(&mut rt, &taken).unwrap()), 1.0);
    let other = Rc::new(Expr::If(boolean(false), var(nowhere), num(2.0)));
    assert_eq!(as_f64(&run(&mut rt, &other).unwrap()), 2.0);
}

#[test]
fn if_condition_must_be_bool() {
    let mut rt = Runtime::new();
    let program = Rc::new(Expr::If(num(1.0), num(1.0), num(2.0)));
    match run(&mut rt, &program) {
        Err(EvalError::ConditionMustBeBool { actual }) => assert_eq!(actual, Erasure::Number),
        other => panic!("unexpected: {:?}", other),
    }
    let on_null = Rc::new(Expr::If(Rc::new(Expr::Null), num(1.0), num(2.0)));
    match run(&mut rt, &on_null) {
        Err(EvalError::ConditionMustBeBool { actual }) => assert_eq!(actual, Erasure::Null),
        other => panic!("unexpected: {:?}", other),
    }
}

#[test]
fn undefined_variable_is_reported_by_name() {
    let mut rt = Runtime::new();
    let x = rt.intern("x");
    match run(&mut rt, &var(x)) {
        Err(EvalError::UndefinedVariable(name)) => {
            assert_eq!(name, x);
            assert_eq!(rt.resolve(name), Some("x"));
        },
        other => panic!("unexpected: {:?}", other),
    }
}

#[test]
fn local_binding_is_lazy() {
    let mut rt = Runtime::new();
    let x = rt.intern("x");
    let nowhere = rt.intern("nowhere");
    let program = local(x, var(nowhere), num(1.0));
    assert_eq!(as_f64(&run(&mut rt, &program).unwrap()), 1.0);
}

#[test]
fn binding_that_needs_itself_exhausts_the_depth() {
    let mut rt = Runtime::new();
    let x = rt.intern("x");
    let program = local(x, var(x), var(x));
    assert!(matches!(run(&mut rt, &program), Err(EvalError::DepthExhausted)));
}

#[test]
fn depth_budget_counts_nested_evaluations() {
    let mut rt = Runtime::new();
    let env = Env::new();
    let sum = binary(BinaryOp::Add, num(1.0), num(2.0));
    assert!(matches!(eval_expr(&mut rt, &env, &sum, 0), Err(EvalError::DepthExhausted)));
    assert_eq!(as_f64(&eval_expr(&mut rt, &env, &sum, 1).unwrap()), 3.0);
    let nested = binary(BinaryOp::Add, sum.clone(), num(3.0));
    assert!(matches!(eval_expr(&mut rt, &env, &nested, 1), Err(EvalError::DepthExhausted)));
    assert_eq!(as_f64(&eval_expr(&mut rt, &env, &nested, 2).unwrap()), 6.0);
}

#[test]
fn literals_need_no_depth() {
    let mut rt = Runtime::new();
    let x = rt.intern("x");
    let nowhere = rt.intern("nowhere");
    let env = Env::new();
    assert!(matches!(eval_expr(&mut rt, &env, &Expr::Null, 0), Ok(Value::Null)));
    assert!(as_bool(&eval_expr(&mut rt, &env, &boolean(true), 0).unwrap()));
    assert_eq!(as_f64(&eval_expr(&mut rt, &env, &num(1.5), 0).unwrap()), 1.5);
    assert_eq!(as_text(&eval_expr(&mut rt, &env, &text("s"), 0).unwrap()), "s");
    let failing = Thunk::new(&mut rt, Env::new(), var(nowhere));
    let bound = Env::new().with_variable(x, failing);
    assert_eq!(as_f64(&eval_expr(&mut rt, &bound, &num(1.5), 0).unwrap()), 1.5);
    let list = array(vec![var(nowhere), num(1.0)]);
    let before = rt.thunk_count();
    let value = eval_expr(&mut rt, &bound, &list, 0).unwrap();
    assert_eq!(value.erasure(), Erasure::Array);
    assert_eq!(rt.thunk_count(), before + 2);
    let entries = dict(vec![("a", var(nowhere))]);
    assert_eq!(eval_expr(&mut rt, &bound, &entries, 0).unwrap().erasure(), Erasure::Dict);
    let f = function(vec![x], var(nowhere));
    assert_eq!(eval_expr(&mut rt, &bound, &f, 0).unwrap().erasure(), Erasure::Function);
}

#[test]
fn function_literal_is_a_closure() {
    let mut rt = Runtime::new();
    let a = rt.intern("a");
    let value = run(&mut rt, &function(vec![a], var(a))).unwrap();
    assert_eq!(value.erasure(), Erasure::Function);
    match value {
        Value::Closure(_, params, _) => assert_eq!(params, vec![a]),
        other => panic!("unexpected: {:?}", other),
    }
}

#[test]
fn erasure_names_every_kind() {
    assert_eq!(Erasure::Null.to_string(), "Null");
    assert_eq!(Erasure::Bool.to_string(), "Bool");
    assert_eq!(Erasure::Number.to_string(), "Number");
    assert_eq!(Erasure::String.to_string(), "String");
    assert_eq!(Erasure::Array.to_string(), "Array");
    assert_eq!(Erasure::Dict.to_string(), "Dict");
    assert_eq!(Erasure::Function.to_string(), "Function");
    assert_eq!(Erasure::Dict.as_str(), "Dict");
}

#[test]
fn larger_budget_gives_the_same_result() {
    let program = || {
        binary(
            BinaryOp::Add,
            index(array(vec![num(1.0), num(2.0)]), num(1.0)),
            binary(BinaryOp::Mul, num(3.0), num(4.0)),
        )
    };
    let mut small = Runtime::new();
    let first = eval_expr(&mut small, &Env::new(), &program(), 2).unwrap();
    let mut large = Runtime::new();
    let second = eval_expr(&mut large, &Env::new(), &program(), 4000).unwrap();
    assert_eq!(as_f64(&first), 14.0);
    assert_eq!(as_f64(&second), 14.0);
    assert_eq!(small.thunk_count(), large.thunk_count());
    let mut tiny = Runtime::new();
    assert!(matches!(
        eval_expr(&mut tiny, &Env::new(), &program(), 1),
        Err(EvalError::DepthExhausted)
    ));
    let mut failing_small = Runtime::new();
    let mut failing_large = Runtime::new();
    let bad = binary(BinaryOp::Add, num(1.0), boolean(true));
    assert!(matches!(
        eval_expr(&mut failing_small, &Env::new(), &bad, 1),
        Err(EvalError::BadOperandType { .. })
    ));
    assert!(matches!(
        eval_expr(&mut failing_large, &Env::new(), &bad, 2000),
        Err(EvalError::BadOperandType { .. })
    ));
}

#[test]
fn evaluation_only_adds_thunks() {
    let mut rt = Runtime::new();
    let x = rt.intern("x");
    let first = Thunk::new(&mut rt, Env::new(), array(vec![num(1.0)]));
    let before = rt.thunk_count();
    let program = local(x, array(vec![num(1.0), num(2.0)]), index(var(x), num(0.0)));
    let value = run(&mut rt, &program).unwrap();
    assert_eq!(as_f64(&value), 1.0);
    assert!(rt.thunk_count() >= before);
    assert_eq!(rt.thunk_count(), before + 3);
    assert!(first.is_bound(&rt));
    let forced = first.force(&mut rt, DEPTH).unwrap();
    assert_eq!(forced.erasure(), Erasure::Array);
    assert_eq!(rt.resolve(x), Some("x"));
}
