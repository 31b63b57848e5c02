//! The evaluator: environments, evaluation errors, and the function from an
//! environment and an expression to a value.

use crate::ast::{BinaryOp, Expr, UnaryOp};
use crate::number::{is_infinite, is_nan, is_zero};
use crate::persistent::{
    bindings, bindings_clone, bindings_get, bindings_new, bindings_update, entries, entries_get,
    entries_insert, entries_new, items_from_vec, items_get, Dict,
};
use crate::semantics::{
    actual_operands, arithmetic_model, arithmetic_op_model, array_model, bad_operand, binary_model,
    bind_keys, bind_params, call_model, dict_model, entry_exprs, entry_keys, entry_model,
    equality_op_model, eval_model, expected_operands, exprs_of, field_model, field_of_model,
    fresh_ids, if_model, index_model, item_model, lemma_allocate_each_ends,
    lemma_allocate_each_step, lemma_allocate_each_wf, lemma_bind_keys_fits, lemma_bind_params_fits,
    lemma_extends_reflexive, lemma_extends_transitive, local_model, logical_op_model, operator_sign,
    truth_operand, unary_apply, unary_model, variable_model, ErrorView, ValueView,
};
use crate::symbol::Symbol;
use crate::types::Erasure;
use crate::value::{admitted, evaluated, Runtime, Thunk, Value};
use std::rc::Rc;
use vstd::prelude::*;
use vstd::string::*;

verus! {

/// An evaluation error.
#[derive(Debug, Clone)]
#[allow(inconsistent_fields)]
pub enum EvalError {
    /// An operator or position was given a value of the wrong kind.
    BadOperandType { expected: String, actual: String },
    /// The condition of an `if` was no truth value.
    ConditionMustBeBool { actual: Erasure },
    /// A variable had no binding.
    UndefinedVariable(Symbol),
    /// A dictionary had no entry of that name.
    FieldDoesNotExist(Symbol),
    /// An array or string had no item at that index.
    IndexOutOfBounds(usize),
    /// A closure was compared.
    CannotCompare,
    /// What was called was no closure.
    NotCallable,
    /// A closure was called with more or fewer arguments than it has
    /// parameters.
    WrongNumberOfArguments,
    /// The evaluation needed more nested steps than its depth budget
    /// allowed.
    DepthExhausted,
}

impl View for EvalError {
    type V = ErrorView;

    open spec fn view(&self) -> ErrorView {
        match *self {
            EvalError::BadOperandType { expected, actual } => ErrorView::BadOperandType {
                expected: expected@,
                actual: actual@,
            },
            EvalError::ConditionMustBeBool { actual } => ErrorView::ConditionMustBeBool { actual },
            EvalError::UndefinedVariable(name) => ErrorView::UndefinedVariable(name),
            EvalError::FieldDoesNotExist(name) => ErrorView::FieldDoesNotExist(name),
            EvalError::IndexOutOfBounds(index) => ErrorView::IndexOutOfBounds(index),
            EvalError::CannotCompare => ErrorView::CannotCompare,
            EvalError::NotCallable => ErrorView::NotCallable,
            EvalError::WrongNumberOfArguments => ErrorView::WrongNumberOfArguments,
            EvalError::DepthExhausted => ErrorView::DepthExhausted,
        }
    }
}

/// An environment: an immutable map from names to thunks. Extending it
/// gives a new environment and leaves this one as it was; the two share
/// their structure, so that a clone costs no more than a pointer.
#[derive(Debug)]
pub struct Env {
    variables: im_rc::HashMap<usize, usize>,
}

impl View for Env {
    type V = Map<usize, usize>;

    /// The bindings: the number of each bound symbol, and the number of
    /// the thunk it is bound to.
    closed spec fn view(&self) -> Map<usize, usize> {
        bindings(self.variables)
    }
}

impl Clone for Env {
    fn clone(&self) -> (r: Self)
        ensures
            r@ == self@,
    {
        Env { variables: bindings_clone(&self.variables) }
    }
}

impl Env {
    /// The environment without bindings.
    pub fn new() -> (env: Env)
        ensures
            env@ == (Map::<usize, usize>::empty()),
    {
        Env { variables: bindings_new() }
    }

    /// A new environment that binds `name` to `thunk`, in place of an
    /// earlier binding of `name`, and else binds what this one binds.
    pub fn with_variable(&self, name: Symbol, thunk: Thunk) -> (env: Env)
        ensures
            env@ == self@.insert(name.0, thunk.id),
    {
        Env { variables: bindings_update(&self.variables, name.0, thunk.id) }
    }

    /// The thunk that `name` is bound to, or `None` where it is unbound.
    pub fn lookup(&self, name: &Symbol) -> (found: Option<Thunk>)
        ensures
            found == if self@.contains_key(name.0) {
                Some(Thunk { id: self@[name.0] })
            } else {
                None
            },
    {
        match bindings_get(&self.variables, name.0) {
            Some(id) => Some(Thunk { id }),
            None => None,
        }
    }
}

/// The error for a value of the wrong kind.
fn bad_operand_type(expected: &str, actual: &str) -> (error: EvalError)
    ensures
        error@ == bad_operand(expected@, actual@),
{
    EvalError::BadOperandType {
        expected: String::from_str(expected),
        actual: String::from_str(actual),
    }
}

/// The sign of a binary operator.
fn sign_of(op: BinaryOp) -> (sign: &'static str)
    ensures
        sign@ == operator_sign(op),
{
    match op {
        BinaryOp::Add => "+",
        BinaryOp::Sub => "-",
        BinaryOp::Mul => "*",
        BinaryOp::Div => "/",
        BinaryOp::Mod => "%",
        BinaryOp::Eq => "==",
        BinaryOp::NotEq => "!=",
        BinaryOp::And => "&&",
        BinaryOp::Or => "||",
    }
}

/// The error of an arithmetic operator that was given `left` and `right`.
fn bad_arithmetic(op: BinaryOp, left: &Value, right: &Value) -> (error: EvalError)
    ensures
        error@ == bad_operand(expected_operands(op), actual_operands(op, left@, right@)),
{
    let expected = match op {
        BinaryOp::Add => String::from_str("(Number + Number) or (String + String)"),
        _ => {
            let mut text = String::from_str("Number ");
            text.append(sign_of(op));
            text.append(" Number");
            text
        },
    };
    let mut actual = left.erasure().to_string();
    actual.append(" ");
    actual.append(sign_of(op));
    actual.append(" ");
    actual.append(right.erasure().as_str());
    EvalError::BadOperandType { expected, actual }
}

/// The value is the number zero, of either sign.
pub open spec fn is_zero_number(value: ValueView) -> bool {
    match value {
        ValueView::Number(bits) => is_zero(bits),
        _ => false,
    }
}

/// The value is an infinity or a NaN.
pub open spec fn is_infinity_or_nan(value: ValueView) -> bool {
    match value {
        ValueView::Number(bits) => is_nan(bits) || is_infinite(bits),
        _ => false,
    }
}

/// `+ - * / %` applied to two values. Division by zero is no error: it
/// gives an infinity or a NaN.
pub fn apply_arithmetic(op: BinaryOp, left: &Value, right: &Value) -> (r: Result<Value, EvalError>)
    ensures
        match r {
            Ok(value) => arithmetic_model(op, left@, right@) == Ok::<ValueView, ErrorView>(value@),
            Err(error) => arithmetic_model(op, left@, right@) == Err::<ValueView, ErrorView>(
                error@,
            ),
        },
        r matches Ok(value) ==> (value@ is Number || value@ is String),
        op == BinaryOp::Div && left@ is Number && is_zero_number(right@) ==> r.is_ok()
            && is_infinity_or_nan(r->Ok_0@),
{
    match (left, right) {
        (Value::Number(a), Value::Number(b)) => {
            let n = match op {
                BinaryOp::Add => a.sum(*b),
                BinaryOp::Sub => a.difference(*b),
                BinaryOp::Mul => a.product(*b),
                BinaryOp::Div => a.quotient(*b),
                _ => a.remainder(*b),
            };
            Ok(Value::Number(n))
        },
        (Value::String(a), Value::String(b)) => {
            match op {
                BinaryOp::Add => {
                    let first: &String = a;
                    let second: &String = b;
                    let mut text = first.clone();
                    text.append(second.as_str());
                    Ok(Value::String(Rc::new(text)))
                },
                _ => Err(bad_arithmetic(op, left, right)),
            }
        },
        _ => Err(bad_arithmetic(op, left, right)),
    }
}

/// A unary operator applied to a value.
pub fn apply_unary(op: UnaryOp, value: &Value) -> (r: Result<Value, EvalError>)
    ensures
        match r {
            Ok(result) => unary_apply(op, value@) == Ok::<ValueView, ErrorView>(result@),
            Err(error) => unary_apply(op, value@) == Err::<ValueView, ErrorView>(error@),
        },
        r matches Ok(result) ==> (result@ is Number || result@ is Bool),
{
    match op {
        UnaryOp::Neg => match value {
            Value::Number(n) => Ok(Value::Number(n.negated())),
            _ => Err(bad_operand_type(Erasure::Number.as_str(), value.erasure().as_str())),
        },
        UnaryOp::Not => match value {
            Value::Bool(b) => Ok(Value::Bool(!*b)),
            _ => Err(bad_operand_type(Erasure::Bool.as_str(), value.erasure().as_str())),
        },
    }
}

/// The truth value of an operand of `&&` or `||`.
fn truth_of(value: &Value) -> (r: Result<bool, EvalError>)
    ensures
        match r {
            Ok(b) => truth_operand(value@) == Ok::<bool, ErrorView>(b),
            Err(error) => truth_operand(value@) == Err::<bool, ErrorView>(error@),
        },
{
    match value {
        Value::Bool(b) => Ok(*b),
        _ => Err(bad_operand_type(Erasure::Bool.as_str(), value.erasure().as_str())),
    }
}

/// The value of an expression in an environment. Literals, collection
/// literals and function literals evaluate nothing and need no depth; nested
/// evaluations are counted against `depth`, and an evaluation that needs
/// more fails with `DepthExhausted`.
///
/// The evaluation must not force a thunk that has neither a value nor an
/// environment; in a runtime in which every thunk has its environment it
/// never does.
pub fn eval_expr(rt: &mut Runtime, env: &Env, expr: &Expr, depth: usize) -> (r: Result<
    Value,
    EvalError,
>)
    requires
        old(rt).wf(),
        old(rt)@.env_fits(env@),
        admitted(*old(rt), eval_model(old(rt)@, env@, *expr, depth as nat)),
    ensures
        evaluated(*old(rt), *final(rt), r, eval_model(old(rt)@, env@, *expr, depth as nat)),
    decreases depth, 0nat, 0nat,
{
    proof {
        lemma_extends_reflexive(rt@);
    }
    match expr {
        Expr::Null => {
            return Ok(Value::Null);
        },
        Expr::Bool(b) => {
            return Ok(Value::Bool(*b));
        },
        Expr::Number(n) => {
            return Ok(Value::Number(*n));
        },
        Expr::String(text) => {
            return Ok(Value::String(text.clone()));
        },
        Expr::Array(elements) => {
            return eval_array(rt, env, elements);
        },
        Expr::Dict(pairs) => {
            return eval_dict(rt, env, pairs);
        },
        Expr::Function(params, body) => {
            return eval_function_literal(rt, env, params, body);
        },
        _ => {},
    }
    if depth == 0 {
        return Err(EvalError::DepthExhausted);
    }
    let d = depth - 1;
    match expr {
        Expr::Variable(name) => eval_variable(rt, env, name, d),
        Expr::UnaryOp(op, operand) => eval_unary_op(rt, env, *op, operand, d),
        Expr::BinaryOp(op, left, right) => eval_binary_op(rt, env, *op, left, right, d),
        Expr::If(cond, then, otherwise) => eval_if(rt, env, cond, then, otherwise, d),
        Expr::Local(name, bound, body) => eval_local(rt, env, name, bound, body, d),
        Expr::FunctionCall(callee, args) => eval_function_call(rt, env, callee, args, d),
        Expr::FieldAccess(operand, name) => eval_field_access(rt, env, operand, name, d),
        Expr::IndexAccess(collection, index) => eval_index_access(rt, env, collection, index, d),
        _ => Err(EvalError::DepthExhausted),
    }
}

/// An array literal: a new thunk for each element.
fn eval_array(rt: &mut Runtime, env: &Env, elements: &Vec<Rc<Expr>>) -> (r: Result<
    Value,
    EvalError,
>)
    requires
        old(rt).wf(),
        old(rt)@.env_fits(env@),
    ensures
        evaluated(*old(rt), *final(rt), r, array_model(old(rt)@, env@, exprs_of(elements@))),
        r.is_ok(),
{
    let ghost start = rt@;
    let ghost exprs = exprs_of(elements@);
    let base = rt.thunk_count();
    let mut ids: Vec<usize> = Vec::new();
    let mut at: usize = 0;
    proof {
        lemma_allocate_each_ends(start, env@, exprs);
        lemma_allocate_each_wf(start, env@, exprs.take(0));
    }
    while at < elements.len()
        invariant
            at <= elements.len(),
            exprs == exprs_of(elements@),
            start == old(rt)@,
            start.wf(),
            start.env_fits(env@),
            base == start.cells.len(),
            rt.wf(),
            old(rt).ready() ==> rt.ready(),
            rt@ == start.allocate_each(env@, exprs.take(at as int)),
            ids@ == fresh_ids(base as nat, at as nat),
        decreases elements.len() - at,
    {
        proof {
            lemma_allocate_each_wf(start, env@, exprs.take(at as int));
            lemma_allocate_each_step(start, env@, exprs, at as int);
        }
        let thunk = Thunk::new(rt, env.clone(), elements[at].clone());
        ids.push(thunk.id);
        at = at + 1;
        proof {
            assert(ids@ =~= fresh_ids(base as nat, at as nat));
        }
    }
    proof {
        lemma_allocate_each_ends(start, env@, exprs);
        lemma_allocate_each_wf(start, env@, exprs);
        assert(exprs.take(at as int) =~= exprs);
    }
    Ok(Value::Array(items_from_vec(ids)))
}

/// A dictionary literal: a new thunk for each entry.
fn eval_dict(rt: &mut Runtime, env: &Env, pairs: &Vec<(String, Rc<Expr>)>) -> (r: Result<
    Value,
    EvalError,
>)
    requires
        old(rt).wf(),
        old(rt)@.env_fits(env@),
    ensures
        evaluated(*old(rt), *final(rt), r, dict_model(old(rt)@, env@, pairs@)),
        r.is_ok(),
{
    let ghost start = rt@;
    let ghost exprs = entry_exprs(pairs@);
    let ghost keys = entry_keys(pairs@);
    let base = rt.thunk_count();
    let mut dict = entries_new();
    let mut at: usize = 0;
    proof {
        lemma_allocate_each_ends(start, env@, exprs);
        lemma_allocate_each_wf(start, env@, exprs.take(0));
    }
    while at < pairs.len()
        invariant
            at <= pairs.len(),
            exprs == entry_exprs(pairs@),
            keys == entry_keys(pairs@),
            start == old(rt)@,
            start.wf(),
            start.env_fits(env@),
            base == start.cells.len(),
            rt.wf(),
            old(rt).ready() ==> rt.ready(),
            rt@ == start.allocate_each(env@, exprs.take(at as int)),
            entries(dict) == bind_keys(keys, base as nat, at as nat),
        decreases pairs.len() - at,
    {
        proof {
            lemma_allocate_each_wf(start, env@, exprs.take(at as int));
            lemma_allocate_each_step(start, env@, exprs, at as int);
        }
        let thunk = Thunk::new(rt, env.clone(), pairs[at].1.clone());
        entries_insert(&mut dict, pairs[at].0.as_str(), thunk.id);
        at = at + 1;
    }
    proof {
        lemma_allocate_each_ends(start, env@, exprs);
        lemma_allocate_each_wf(start, env@, exprs);
        assert(exprs.take(at as int) =~= exprs);
        lemma_bind_keys_fits(keys, base as nat, at as nat);
    }
    Ok(Value::Dict(dict))
}

/// A function literal: a closure over the current environment.
fn eval_function_literal(rt: &mut Runtime, env: &Env, params: &Vec<Symbol>, body: &Rc<Expr>) -> (r:
    Result<Value, EvalError>)
    requires
        old(rt).wf(),
        old(rt)@.env_fits(env@),
    ensures
        evaluated(
            *old(rt),
            *final(rt),
            r,
            crate::semantics::done(ValueView::Closure(env@, params@, **body), old(rt)@),
        ),
        r.is_ok(),
{
    proof {
        lemma_extends_reflexive(rt@);
    }
    let copy = params.clone();
    assert(copy@ =~= params@);
    Ok(Value::Closure(env.clone(), copy, body.clone()))
}

/// A variable: the value of the thunk it is bound to.
fn eval_variable(rt: &mut Runtime, env: &Env, name: &Symbol, depth: usize) -> (r: Result<
    Value,
    EvalError,
>)
    requires
        old(rt).wf(),
        old(rt)@.env_fits(env@),
        admitted(*old(rt), variable_model(old(rt)@, env@, *name, depth as nat)),
    ensures
        evaluated(*old(rt), *final(rt), r, variable_model(old(rt)@, env@, *name, depth as nat)),
    decreases depth, 4nat, 0nat,
{
    proof {
        lemma_extends_reflexive(rt@);
    }
    match env.lookup(name) {
        Some(thunk) => thunk.force(rt, depth),
        None => Err(EvalError::UndefinedVariable(*name)),
    }
}

/// A unary operator applied to the value of its operand.
fn eval_unary_op(rt: &mut Runtime, env: &Env, op: UnaryOp, operand: &Expr, depth: usize) -> (r:
    Result<Value, EvalError>)
    requires
        old(rt).wf(),
        old(rt)@.env_fits(env@),
        admitted(*old(rt), unary_model(old(rt)@, env@, op, *operand, depth as nat)),
    ensures
        evaluated(*old(rt), *final(rt), r, unary_model(old(rt)@, env@, op, *operand, depth as nat)),
    decreases depth, 4nat, 0nat,
{
    let value = eval_expr(rt, env, operand, depth)?;
    apply_unary(op, &value)
}

/// A binary operator.
fn eval_binary_op(
    rt: &mut Runtime,
    env: &Env,
    op: BinaryOp,
    left: &Expr,
    right: &Expr,
    depth: usize,
) -> (r: Result<Value, EvalError>)
    requires
        old(rt).wf(),
        old(rt)@.env_fits(env@),
        admitted(*old(rt), binary_model(old(rt)@, env@, op, *left, *right, depth as nat)),
    ensures
        evaluated(
            *old(rt),
            *final(rt),
            r,
            binary_model(old(rt)@, env@, op, *left, *right, depth as nat),
        ),
    decreases depth, 5nat, 0nat,
{
    match op {
        BinaryOp::Eq => eval_equality(rt, env, false, left, right, depth),
        BinaryOp::NotEq => eval_equality(rt, env, true, left, right, depth),
        BinaryOp::And => eval_logical(rt, env, false, left, right, depth),
        BinaryOp::Or => eval_logical(rt, env, true, left, right, depth),
        _ => eval_arithmetic(rt, env, op, left, right, depth),
    }
}

/// `+ - * / %`: both operands are evaluated, then the operator is applied.
fn eval_arithmetic(
    rt: &mut Runtime,
    env: &Env,
    op: BinaryOp,
    left: &Expr,
    right: &Expr,
    depth: usize,
) -> (r: Result<Value, EvalError>)
    requires
        old(rt).wf(),
        old(rt)@.env_fits(env@),
        admitted(*old(rt), arithmetic_op_model(old(rt)@, env@, op, *left, *right, depth as nat)),
    ensures
        evaluated(
            *old(rt),
            *final(rt),
            r,
            arithmetic_op_model(old(rt)@, env@, op, *left, *right, depth as nat),
        ),
    decreases depth, 4nat, 0nat,
{
    let ghost start = rt@;
    let a = eval_expr(rt, env, left, depth)?;
    let ghost middle = rt@;
    let b = match eval_expr(rt, env, right, depth) {
        Ok(value) => value,
        Err(error) => {
            proof {
                lemma_extends_transitive(start, middle, rt@);
            }
            return Err(error);
        },
    };
    proof {
        lemma_extends_transitive(start, middle, rt@);
    }
    apply_arithmetic(op, &a, &b)
}

/// `==` and `!=`: both operands are evaluated, then compared.
fn eval_equality(
    rt: &mut Runtime,
    env: &Env,
    negate: bool,
    left: &Expr,
    right: &Expr,
    depth: usize,
) -> (r: Result<Value, EvalError>)
    requires
        old(rt).wf(),
        old(rt)@.env_fits(env@),
        admitted(*old(rt), equality_op_model(old(rt)@, env@, negate, *left, *right, depth as nat)),
    ensures
        evaluated(
            *old(rt),
            *final(rt),
            r,
            equality_op_model(old(rt)@, env@, negate, *left, *right, depth as nat),
        ),
    decreases depth, 4nat, 0nat,
{
    let ghost start = rt@;
    let a = eval_expr(rt, env, left, depth)?;
    let ghost middle = rt@;
    let b = match eval_expr(rt, env, right, depth) {
        Ok(value) => value,
        Err(error) => {
            proof {
                lemma_extends_transitive(start, middle, rt@);
            }
            return Err(error);
        },
    };
    let ghost third = rt@;
    let same = Value::try_eq(rt, &a, &b, depth);
    proof {
        lemma_extends_transitive(start, middle, third);
        lemma_extends_transitive(start, third, rt@);
    }
    match same {
        Ok(same) => Ok(Value::Bool(same != negate)),
        Err(error) => Err(error),
    }
}

/// `&&` and `||`: the right operand is evaluated only where the left one
/// does not decide.
fn eval_logical(
    rt: &mut Runtime,
    env: &Env,
    stop: bool,
    left: &Expr,
    right: &Expr,
    depth: usize,
) -> (r: Result<Value, EvalError>)
    requires
        old(rt).wf(),
        old(rt)@.env_fits(env@),
        admitted(*old(rt), logical_op_model(old(rt)@, env@, stop, *left, *right, depth as nat)),
    ensures
        evaluated(
            *old(rt),
            *final(rt),
            r,
            logical_op_model(old(rt)@, env@, stop, *left, *right, depth as nat),
        ),
    decreases depth, 4nat, 0nat,
{
    let ghost start = rt@;
    let a = eval_expr(rt, env, left, depth)?;
    let first = truth_of(&a)?;
    if first == stop {
        return Ok(Value::Bool(stop));
    }
    let ghost middle = rt@;
    let b = match eval_expr(rt, env, right, depth) {
        Ok(value) => value,
        Err(error) => {
            proof {
                lemma_extends_transitive(start, middle, rt@);
            }
            return Err(error);
        },
    };
    proof {
        lemma_extends_transitive(start, middle, rt@);
    }
    let second = truth_of(&b)?;
    Ok(Value::Bool(second))
}

/// `if`: the condition is evaluated, then one of the branches.
fn eval_if(
    rt: &mut Runtime,
    env: &Env,
    cond: &Expr,
    then: &Expr,
    otherwise: &Expr,
    depth: usize,
) -> (r: Result<Value, EvalError>)
    requires
        old(rt).wf(),
        old(rt)@.env_fits(env@),
        admitted(*old(rt), if_model(old(rt)@, env@, *cond, *then, *otherwise, depth as nat)),
    ensures
        evaluated(
            *old(rt),
            *final(rt),
            r,
            if_model(old(rt)@, env@, *cond, *then, *otherwise, depth as nat),
        ),
    decreases depth, 4nat, 0nat,
{
    let ghost start = rt@;
    let value = eval_expr(rt, env, cond, depth)?;
    let ghost middle = rt@;
    let chosen = match value {
        Value::Bool(b) => b,
        _ => {
            return Err(EvalError::ConditionMustBeBool { actual: value.erasure() });
        },
    };
    let r = if chosen {
        eval_expr(rt, env, then, depth)
    } else {
        eval_expr(rt, env, otherwise, depth)
    };
    proof {
        lemma_extends_transitive(start, middle, rt@);
    }
    r
}

/// `local`: the name is bound to a new thunk whose environment already
/// holds that binding; the body is evaluated in that environment.
fn eval_local(
    rt: &mut Runtime,
    env: &Env,
    name: &Symbol,
    bound: &Rc<Expr>,
    body: &Expr,
    depth: usize,
) -> (r: Result<Value, EvalError>)
    requires
        old(rt).wf(),
        old(rt)@.env_fits(env@),
        admitted(*old(rt), local_model(old(rt)@, env@, *name, **bound, *body, depth as nat)),
    ensures
        evaluated(
            *old(rt),
            *final(rt),
            r,
            local_model(old(rt)@, env@, *name, **bound, *body, depth as nat),
        ),
    decreases depth, 4nat, 0nat,
{
    let ghost start = rt@;
    let thunk = Thunk::partial_new(rt, bound.clone());
    let inner = env.with_variable(*name, thunk);
    let ghost second = rt@;
    thunk.set_env(rt, inner.clone());
    let ghost middle = rt@;
    proof {
        assert(middle.cells =~= start.allocate(Some(inner@), **bound).cells);
        if start.ready() {
            assert forall|i: int| 0 <= i < middle.cells.len() implies (
            #[trigger] middle.cells[i]).env.is_some() by {
                if i < start.cells.len() {
                    assert(start.cells[i].env.is_some());
                }
            }
        }
        lemma_extends_transitive(start, second, middle);
    }
    let r = eval_expr(rt, &inner, body, depth);
    proof {
        lemma_extends_transitive(start, middle, rt@);
    }
    r
}

/// A call: the arguments are deferred in the caller's environment and
/// bound in the closure's; the body is evaluated there.
fn eval_function_call(
    rt: &mut Runtime,
    env: &Env,
    callee: &Expr,
    args: &Vec<Rc<Expr>>,
    depth: usize,
) -> (r: Result<Value, EvalError>)
    requires
        old(rt).wf(),
        old(rt)@.env_fits(env@),
        admitted(*old(rt), call_model(old(rt)@, env@, *callee, exprs_of(args@), depth as nat)),
    ensures
        evaluated(
            *old(rt),
            *final(rt),
            r,
            call_model(old(rt)@, env@, *callee, exprs_of(args@), depth as nat),
        ),
    decreases depth, 4nat, 0nat,
{
    let ghost start = rt@;
    let value = eval_expr(rt, env, callee, depth)?;
    let ghost middle = rt@;
    match value {
        Value::Closure(captured, params, body) => {
            if args.len() != params.len() {
                return Err(EvalError::WrongNumberOfArguments);
            }
            let ghost exprs = exprs_of(args@);
            let base = rt.thunk_count();
            let mut inner = captured.clone();
            let mut at: usize = 0;
            proof {
                lemma_allocate_each_ends(middle, env@, exprs);
                lemma_allocate_each_wf(middle, env@, exprs.take(0));
            }
            while at < args.len()
                invariant
                    at <= args.len(),
                    args.len() == params.len(),
                    exprs == exprs_of(args@),
                    middle.wf(),
                    middle.env_fits(env@),
                    middle.env_fits(captured@),
                    base == middle.cells.len(),
                    rt.wf(),
                    old(rt).ready() ==> rt.ready(),
                    rt@ == middle.allocate_each(env@, exprs.take(at as int)),
                    inner@ == bind_params(captured@, params@, base as nat, at as nat),
                decreases args.len() - at,
            {
                proof {
                    lemma_allocate_each_wf(middle, env@, exprs.take(at as int));
                    lemma_allocate_each_step(middle, env@, exprs, at as int);
                }
                let thunk = Thunk::new(rt, env.clone(), args[at].clone());
                inner = inner.with_variable(params[at], thunk);
                at = at + 1;
            }
            proof {
                lemma_allocate_each_ends(middle, env@, exprs);
                lemma_allocate_each_wf(middle, env@, exprs);
                assert(exprs.take(at as int) =~= exprs);
                crate::semantics::lemma_env_fits_later(middle, rt@, captured@);
                lemma_bind_params_fits(rt@, captured@, params@, base as nat, at as nat);
            }
            let ghost third = rt@;
            let r = eval_expr(rt, &inner, &body, depth);
            proof {
                lemma_extends_transitive(start, middle, third);
                lemma_extends_transitive(start, third, rt@);
            }
            r
        },
        _ => Err(EvalError::NotCallable),
    }
}

/// The entry of `key` in a dictionary: its value, or the error that names
/// the key's symbol.
pub fn entry_of(rt: &mut Runtime, dict: &Dict, key: &str, depth: usize) -> (r: Result<
    Value,
    EvalError,
>)
    requires
        old(rt).wf(),
        old(rt)@.value_fits(ValueView::Dict(entries(*dict))),
        admitted(*old(rt), entry_model(old(rt)@, entries(*dict), key@, depth as nat)),
    ensures
        evaluated(*old(rt), *final(rt), r, entry_model(old(rt)@, entries(*dict), key@, depth as nat)),
    decreases depth, 4nat, 0nat,
{
    match entries_get(dict, key) {
        Some(id) => (Thunk { id }).force(rt, depth),
        None => {
            let symbol = rt.intern(key);
            Err(EvalError::FieldDoesNotExist(symbol))
        },
    }
}

/// The field `name` of a value.
pub fn field_of(rt: &mut Runtime, value: &Value, name: &Symbol, depth: usize) -> (r: Result<
    Value,
    EvalError,
>)
    requires
        old(rt).wf(),
        old(rt)@.value_fits(value@),
        admitted(*old(rt), field_of_model(old(rt)@, value@, *name, depth as nat)),
    ensures
        evaluated(*old(rt), *final(rt), r, field_of_model(old(rt)@, value@, *name, depth as nat)),
    decreases depth, 4nat, 0nat,
{
    proof {
        lemma_extends_reflexive(rt@);
    }
    match value {
        Value::Dict(dict) => {
            let found = match rt.resolve(*name) {
                Some(key) => entries_get(dict, key),
                None => None,
            };
            match found {
                Some(id) => (Thunk { id }).force(rt, depth),
                None => Err(EvalError::FieldDoesNotExist(*name)),
            }
        },
        _ => Err(bad_operand_type(Erasure::Dict.as_str(), value.erasure().as_str())),
    }
}

/// Field access: the operand is evaluated, then its field taken.
fn eval_field_access(rt: &mut Runtime, env: &Env, operand: &Expr, name: &Symbol, depth: usize) -> (r:
    Result<Value, EvalError>)
    requires
        old(rt).wf(),
        old(rt)@.env_fits(env@),
        admitted(*old(rt), field_model(old(rt)@, env@, *operand, *name, depth as nat)),
    ensures
        evaluated(
            *old(rt),
            *final(rt),
            r,
            field_model(old(rt)@, env@, *operand, *name, depth as nat),
        ),
    decreases depth, 5nat, 0nat,
{
    let ghost start = rt@;
    let value = eval_expr(rt, env, operand, depth)?;
    let ghost middle = rt@;
    let r = field_of(rt, &value, name, depth);
    proof {
        lemma_extends_transitive(start, middle, rt@);
    }
    r
}

/// The item of a collection at an index. A number indexes an array or a
/// string by its value truncated toward zero; an index that truncates below
/// zero, or is not below the length, is out of bounds.
pub fn item_of(rt: &mut Runtime, collection: &Value, index: &Value, depth: usize) -> (r: Result<
    Value,
    EvalError,
>)
    requires
        old(rt).wf(),
        old(rt)@.value_fits(collection@),
        admitted(*old(rt), item_model(old(rt)@, collection@, index@, depth as nat)),
    ensures
        evaluated(
            *old(rt),
            *final(rt),
            r,
            item_model(old(rt)@, collection@, index@, depth as nat),
        ),
    decreases depth, 5nat, 0nat,
{
    proof {
        lemma_extends_reflexive(rt@);
    }
    match collection {
        Value::Array(array) => match index {
            Value::Number(n) => match n.to_index() {
                Some(at) => match items_get(array, at) {
                    Some(id) => (Thunk { id }).force(rt, depth),
                    None => Err(EvalError::IndexOutOfBounds(at)),
                },
                None => Err(EvalError::IndexOutOfBounds(0)),
            },
            _ => Err(bad_operand_type(Erasure::Number.as_str(), index.erasure().as_str())),
        },
        Value::String(text) => match index {
            Value::Number(n) => match n.to_index() {
                Some(at) => {
                    let whole: &String = text;
                    if at < whole.as_str().unicode_len() {
                        let one = whole.as_str().substring_char(at, at + 1);
                        proof {
                            assert(one@ =~= seq![text@[at as int]]);
                        }
                        Ok(Value::String(Rc::new(String::from_str(one))))
                    } else {
                        Err(EvalError::IndexOutOfBounds(at))
                    }
                },
                None => Err(EvalError::IndexOutOfBounds(0)),
            },
            _ => Err(bad_operand_type(Erasure::Number.as_str(), index.erasure().as_str())),
        },
        Value::Dict(dict) => match index {
            Value::String(key) => {
                let text: &String = key;
                entry_of(rt, dict, text.as_str(), depth)
            },
            _ => Err(bad_operand_type(Erasure::String.as_str(), index.erasure().as_str())),
        },
        _ => Err(bad_operand_type("Array or String or Dict", collection.erasure().as_str())),
    }
}

/// Index access: the collection and the index are evaluated, then the
/// item is taken.
fn eval_index_access(
    rt: &mut Runtime,
    env: &Env,
    collection: &Expr,
    index: &Expr,
    depth: usize,
) -> (r: Result<Value, EvalError>)
    requires
        old(rt).wf(),
        old(rt)@.env_fits(env@),
        admitted(*old(rt), index_model(old(rt)@, env@, *collection, *index, depth as nat)),
    ensures
        evaluated(
            *old(rt),
            *final(rt),
            r,
            index_model(old(rt)@, env@, *collection, *index, depth as nat),
        ),
    decreases depth, 6nat, 0nat,
{
    let ghost start = rt@;
    let target = eval_expr(rt, env, collection, depth)?;
    let ghost middle = rt@;
    let at = match eval_expr(rt, env, index, depth) {
        Ok(value) => value,
        Err(error) => {
            proof {
                lemma_extends_transitive(start, middle, rt@);
            }
            return Err(error);
        },
    };
    let ghost third = rt@;
    let r = item_of(rt, &target, &at, depth);
    proof {
        lemma_extends_transitive(start, middle, third);
        lemma_extends_transitive(start, third, rt@);
    }
    r
}

} // verus!
