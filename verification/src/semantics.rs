//! The meaning of the language, as mathematics.
//!
//! A state holds the thunks made so far, each with the environment and the
//! expression it defers and the value it was found to have, and the interned
//! names. Evaluation is a function from a state, an environment, an
//! expression and a depth budget to a result and a new state. The executable
//! evaluator is proved to compute exactly this function.

use crate::ast::{BinaryOp, Expr, UnaryOp};
use crate::number::{
    double_difference, double_product, double_quotient, double_remainder, double_sum, ieee_eq,
    ieee_neg, index_of,
};
use crate::order::sorted_keys;
use crate::symbol::{intern_model, Symbol};
use crate::types::Erasure;
use std::rc::Rc;
use vstd::prelude::*;

verus! {

/// A runtime value. Arrays, dictionaries and environments hold thunks by
/// their number in the state.
pub enum ValueView {
    Null,
    Bool(bool),
    Number(u64),
    String(Seq<char>),
    Array(Seq<usize>),
    Dict(Map<Seq<char>, usize>),
    Closure(Map<usize, usize>, Seq<Symbol>, Expr),
}

/// An evaluation error.
#[allow(inconsistent_fields)]
pub enum ErrorView {
    BadOperandType { expected: Seq<char>, actual: Seq<char> },
    ConditionMustBeBool { actual: Erasure },
    UndefinedVariable(Symbol),
    FieldDoesNotExist(Symbol),
    IndexOutOfBounds(usize),
    CannotCompare,
    NotCallable,
    WrongNumberOfArguments,
    DepthExhausted,
    /// A thunk was forced that has neither a value nor an environment.
    /// This is an outcome of the model only: it marks the evaluations that
    /// the executable functions do not admit.
    EnvNotSet,
}

/// A thunk: the environment and expression it defers, and its value once
/// it has been forced with success.
pub struct CellView {
    pub env: Option<Map<usize, usize>>,
    pub expr: Expr,
    pub memo: Option<ValueView>,
}

/// Everything that evaluation can change: the thunks and the interned names.
pub struct State {
    pub cells: Seq<CellView>,
    pub names: Seq<Seq<char>>,
}

/// A result together with the state that the computation left.
pub struct Outcome<T> {
    pub result: Result<T, ErrorView>,
    pub state: State,
}

pub open spec fn done<T>(value: T, state: State) -> Outcome<T> {
    Outcome { result: Ok(value), state }
}

pub open spec fn fail<T>(error: ErrorView, state: State) -> Outcome<T> {
    Outcome { result: Err(error), state }
}

pub open spec fn bad_operand(expected: Seq<char>, actual: Seq<char>) -> ErrorView {
    ErrorView::BadOperandType { expected, actual }
}

impl ValueView {
    /// The coarse kind of the value.
    pub open spec fn erasure(self) -> Erasure {
        match self {
            ValueView::Null => Erasure::Null,
            ValueView::Bool(_) => Erasure::Bool,
            ValueView::Number(_) => Erasure::Number,
            ValueView::String(_) => Erasure::String,
            ValueView::Array(_) => Erasure::Array,
            ValueView::Dict(_) => Erasure::Dict,
            ValueView::Closure(_, _, _) => Erasure::Function,
        }
    }
}

/// The expressions behind a list of shared expressions.
pub open spec fn exprs_of(list: Seq<Rc<Expr>>) -> Seq<Expr> {
    list.map_values(|e: Rc<Expr>| *e)
}

/// The expressions of the entries of a dictionary literal.
pub open spec fn entry_exprs(pairs: Seq<(String, Rc<Expr>)>) -> Seq<Expr> {
    pairs.map_values(|pair: (String, Rc<Expr>)| *pair.1)
}

/// The keys of the entries of a dictionary literal.
pub open spec fn entry_keys(pairs: Seq<(String, Rc<Expr>)>) -> Seq<Seq<char>> {
    pairs.map_values(|pair: (String, Rc<Expr>)| pair.0@)
}

/// The numbers of `count` thunks made one after the other, the first of
/// them being number `base`.
pub open spec fn fresh_ids(base: nat, count: nat) -> Seq<usize> {
    Seq::new(count, |i: int| (base + i) as usize)
}

/// The dictionary that binds the first `count` keys to thunks `base`,
/// `base + 1`, and so on: where a key occurs twice the later one wins.
pub open spec fn bind_keys(keys: Seq<Seq<char>>, base: nat, count: nat) -> Map<Seq<char>, usize>
    decreases count,
{
    if count == 0 {
        Map::empty()
    } else {
        bind_keys(keys, base, (count - 1) as nat).insert(
            keys[count - 1],
            (base + count - 1) as usize,
        )
    }
}

/// The environment `env` with the first `count` parameters bound to thunks
/// `base`, `base + 1`, and so on: where a parameter occurs twice the later
/// one wins.
pub open spec fn bind_params(
    env: Map<usize, usize>,
    params: Seq<Symbol>,
    base: nat,
    count: nat,
) -> Map<usize, usize>
    decreases count,
{
    if count == 0 {
        env
    } else {
        bind_params(env, params, base, (count - 1) as nat).insert(
            params[count - 1].0,
            (base + count - 1) as usize,
        )
    }
}

impl State {
    /// Every thunk that the environment names exists.
    pub open spec fn env_fits(self, env: Map<usize, usize>) -> bool {
        forall|name: usize| #[trigger] env.contains_key(name) ==> env[name] < self.cells.len()
    }

    /// Every thunk that the array names exists.
    pub open spec fn items_fit(self, ids: Seq<usize>) -> bool {
        forall|i: int| 0 <= i < ids.len() ==> (#[trigger] ids[i]) < self.cells.len()
    }

    /// The dictionary is finite and every thunk that it names exists.
    pub open spec fn entries_fit(self, dict: Map<Seq<char>, usize>) -> bool {
        &&& dict.dom().finite()
        &&& forall|key: Seq<char>| #[trigger]
            dict.contains_key(key) ==> dict[key] < self.cells.len()
    }

    /// Every thunk that the value names exists, and a dictionary is finite.
    pub open spec fn value_fits(self, value: ValueView) -> bool {
        match value {
            ValueView::Array(ids) => self.items_fit(ids),
            ValueView::Dict(dict) => self.entries_fit(dict),
            ValueView::Closure(env, _, _) => self.env_fits(env),
            _ => true,
        }
    }

    /// The thunk's environment and value name only thunks that exist.
    pub open spec fn cell_fits(self, cell: CellView) -> bool {
        &&& cell.env matches Some(env) ==> self.env_fits(env)
        &&& cell.memo matches Some(value) ==> self.value_fits(value)
    }

    /// The state is consistent: no name is interned twice, and no thunk
    /// names a thunk that does not exist.
    pub open spec fn wf(self) -> bool {
        &&& self.names.no_duplicates()
        &&& forall|i: int| 0 <= i < self.cells.len() ==> self.cell_fits(#[trigger] self.cells[i])
    }

    /// The state is consistent and every thunk has its environment, so
    /// that every thunk can be forced.
    pub open spec fn ready(self) -> bool {
        &&& self.wf()
        &&& forall|i: int| 0 <= i < self.cells.len() ==> (#[trigger] self.cells[i]).env.is_some()
    }

    /// `later` is this state after some evaluation: it holds every thunk of
    /// this state, with the same expression, the same environment where it
    /// was set and the same value where there was one, and every interned
    /// name at its place.
    pub open spec fn extends_to(self, later: State) -> bool {
        &&& self.cells.len() <= later.cells.len()
        &&& self.names.is_prefix_of(later.names)
        &&& forall|i: int|
            0 <= i < self.cells.len() ==> {
                let before = #[trigger] self.cells[i];
                let after = later.cells[i];
                &&& after.expr == before.expr
                &&& before.env.is_some() ==> after.env == before.env
                &&& before.memo.is_some() ==> after.memo == before.memo
            }
    }

    /// The state with one more thunk, not yet forced.
    pub open spec fn allocate(self, env: Option<Map<usize, usize>>, expr: Expr) -> State {
        State { cells: self.cells.push(CellView { env, expr, memo: None }), names: self.names }
    }

    /// The state with one more thunk for each of the expressions, in their
    /// order, all of them with the environment `env`.
    pub open spec fn allocate_each(self, env: Map<usize, usize>, exprs: Seq<Expr>) -> State {
        State {
            cells: self.cells + Seq::new(
                exprs.len(),
                |i: int| CellView { env: Some(env), expr: exprs[i], memo: None },
            ),
            names: self.names,
        }
    }

    /// The state in which thunk `id` has its environment, if it had none.
    pub open spec fn with_env(self, id: int, env: Map<usize, usize>) -> State {
        if 0 <= id < self.cells.len() && self.cells[id].env.is_none() {
            State {
                cells: self.cells.update(
                    id,
                    CellView { env: Some(env), expr: self.cells[id].expr, memo: self.cells[id].memo },
                ),
                names: self.names,
            }
        } else {
            self
        }
    }

    /// The state in which thunk `id` remembers `memo`: a value, or nothing.
    pub open spec fn with_memo(self, id: int, memo: Option<ValueView>) -> State {
        if 0 <= id < self.cells.len() {
            State {
                cells: self.cells.update(
                    id,
                    CellView { env: self.cells[id].env, expr: self.cells[id].expr, memo },
                ),
                names: self.names,
            }
        } else {
            self
        }
    }

    /// The state with other names.
    pub open spec fn with_names(self, names: Seq<Seq<char>>) -> State {
        State { cells: self.cells, names }
    }
}

/// The sign of an arithmetic operator in a diagnostic.
pub open spec fn operator_sign(op: BinaryOp) -> Seq<char> {
    match op {
        BinaryOp::Add => "+"@,
        BinaryOp::Sub => "-"@,
        BinaryOp::Mul => "*"@,
        BinaryOp::Div => "/"@,
        BinaryOp::Mod => "%"@,
        BinaryOp::Eq => "=="@,
        BinaryOp::NotEq => "!="@,
        BinaryOp::And => "&&"@,
        BinaryOp::Or => "||"@,
    }
}

/// The operand kinds that an arithmetic operator accepts, as a diagnostic
/// names them.
pub open spec fn expected_operands(op: BinaryOp) -> Seq<char> {
    if op == BinaryOp::Add {
        "(Number + Number) or (String + String)"@
    } else {
        "Number "@ + operator_sign(op) + " Number"@
    }
}

/// The operand kinds that an arithmetic operator was given.
pub open spec fn actual_operands(op: BinaryOp, left: ValueView, right: ValueView) -> Seq<char> {
    left.erasure().name() + " "@ + operator_sign(op) + " "@ + right.erasure().name()
}

/// The result of an arithmetic operator on two numbers.
pub open spec fn arithmetic(op: BinaryOp, a: u64, b: u64) -> u64 {
    match op {
        BinaryOp::Add => double_sum(a, b),
        BinaryOp::Sub => double_difference(a, b),
        BinaryOp::Mul => double_product(a, b),
        BinaryOp::Div => double_quotient(a, b),
        _ => double_remainder(a, b),
    }
}

/// `+ - * / %` on two values: numbers are computed with, `+` also joins
/// two strings, and any other pair of operands is refused.
pub open spec fn arithmetic_model(op: BinaryOp, left: ValueView, right: ValueView) -> Result<
    ValueView,
    ErrorView,
> {
    match (left, right) {
        (ValueView::Number(a), ValueView::Number(b)) => Ok(ValueView::Number(arithmetic(op, a, b))),
        (ValueView::String(a), ValueView::String(b)) => if op == BinaryOp::Add {
            Ok(ValueView::String(a + b))
        } else {
            Err(bad_operand(expected_operands(op), actual_operands(op, left, right)))
        },
        _ => Err(bad_operand(expected_operands(op), actual_operands(op, left, right))),
    }
}

/// A unary operator on a value: `-` negates a number, `!` a truth value.
pub open spec fn unary_apply(op: UnaryOp, value: ValueView) -> Result<ValueView, ErrorView> {
    match op {
        UnaryOp::Neg => match value {
            ValueView::Number(n) => Ok(ValueView::Number(ieee_neg(n))),
            _ => Err(bad_operand(Erasure::Number.name(), value.erasure().name())),
        },
        UnaryOp::Not => match value {
            ValueView::Bool(b) => Ok(ValueView::Bool(!b)),
            _ => Err(bad_operand(Erasure::Bool.name(), value.erasure().name())),
        },
    }
}

/// A value in the place of an operand of `&&` or `||`: it must be a truth
/// value.
pub open spec fn truth_operand(value: ValueView) -> Result<bool, ErrorView> {
    match value {
        ValueView::Bool(b) => Ok(b),
        _ => Err(bad_operand(Erasure::Bool.name(), value.erasure().name())),
    }
}

/// Forcing thunk `id`: its remembered value if it has one; else the value
/// of its expression in its environment. The thunk remembers the value of
/// an evaluation that succeeds, and nothing of one that fails. A thunk that
/// has neither a value nor an environment cannot be forced: the model marks
/// that as `EnvNotSet`, and the executable functions leave out every input
/// that leads there.
pub open spec fn force_model(st: State, id: usize, depth: nat) -> Outcome<ValueView>
    decreases depth, 1nat, 0nat,
{
    let cell = st.cells[id as int];
    match cell.memo {
        Some(value) => done(value, st),
        None => match cell.env {
            None => fail(ErrorView::EnvNotSet, st),
            Some(env) => {
                let r = eval_model(st, env, cell.expr, depth);
                match r.result {
                    Err(error) => fail(error, r.state.with_memo(id as int, None)),
                    Ok(value) => done(value, r.state.with_memo(id as int, Some(value))),
                }
            },
        },
    }
}

/// Comparing the items of two arrays of the same length from `from` on:
/// each pair is forced, left before right, and compared; the first pair
/// that differs ends the walk with `false`, the first failure with that
/// failure.
pub open spec fn items_eq_model(
    st: State,
    left: Seq<usize>,
    right: Seq<usize>,
    from: nat,
    depth: nat,
) -> Outcome<bool>
    decreases depth, 2nat, left.len() - from,
{
    if from >= left.len() {
        done(true, st)
    } else if depth == 0 {
        fail(ErrorView::DepthExhausted, st)
    } else {
        let d = (depth - 1) as nat;
        let a = force_model(st, left[from as int], d);
        match a.result {
            Err(e) => fail(e, a.state),
            Ok(x) => {
                let b = force_model(a.state, right[from as int], d);
                match b.result {
                    Err(e) => fail(e, b.state),
                    Ok(y) => {
                        let c = try_eq_model(b.state, x, y, d);
                        match c.result {
                            Err(_) => c,
                            Ok(same) => if same {
                                items_eq_model(c.state, left, right, from + 1, depth)
                            } else {
                                c
                            },
                        }
                    },
                }
            },
        }
    }
}

/// Comparing the entries of two dictionaries of the same size, the keys of
/// the left one taken in ascending order from position `from` on: a key
/// that the right one lacks ends the walk with `false`; else the two values
/// are forced, left before right, and compared.
pub open spec fn entries_eq_model(
    st: State,
    keys: Seq<Seq<char>>,
    left: Map<Seq<char>, usize>,
    right: Map<Seq<char>, usize>,
    from: nat,
    depth: nat,
) -> Outcome<bool>
    decreases depth, 2nat, keys.len() - from,
{
    if from >= keys.len() {
        done(true, st)
    } else if !right.contains_key(keys[from as int]) {
        done(false, st)
    } else if depth == 0 {
        fail(ErrorView::DepthExhausted, st)
    } else {
        let d = (depth - 1) as nat;
        let key = keys[from as int];
        let a = force_model(st, left[key], d);
        match a.result {
            Err(e) => fail(e, a.state),
            Ok(x) => {
                let b = force_model(a.state, right[key], d);
                match b.result {
                    Err(e) => fail(e, b.state),
                    Ok(y) => {
                        let c = try_eq_model(b.state, x, y, d);
                        match c.result {
                            Err(_) => c,
                            Ok(same) => if same {
                                entries_eq_model(c.state, keys, left, right, from + 1, depth)
                            } else {
                                c
                            },
                        }
                    },
                }
            },
        }
    }
}

/// Structural equality of two values. Values of the same simple kind are
/// compared directly, numbers as IEEE-754 does; arrays and dictionaries of
/// different sizes differ without a thunk being forced, and else are
/// compared item by item; a closure on either side cannot be compared; two
/// values of different kinds, neither a closure, differ.
pub open spec fn try_eq_model(st: State, left: ValueView, right: ValueView, depth: nat) -> Outcome<
    bool,
>
    decreases depth, 3nat, 0nat,
{
    match (left, right) {
        (ValueView::Null, ValueView::Null) => done(true, st),
        (ValueView::Bool(a), ValueView::Bool(b)) => done(a == b, st),
        (ValueView::Number(a), ValueView::Number(b)) => done(ieee_eq(a, b), st),
        (ValueView::String(a), ValueView::String(b)) => done(a == b, st),
        (ValueView::Array(a), ValueView::Array(b)) => if a.len() != b.len() {
            done(false, st)
        } else {
            items_eq_model(st, a, b, 0, depth)
        },
        (ValueView::Dict(a), ValueView::Dict(b)) => if a.len() != b.len() {
            done(false, st)
        } else {
            entries_eq_model(st, sorted_keys(a), a, b, 0, depth)
        },
        (ValueView::Closure(_, _, _), _) => fail(ErrorView::CannotCompare, st),
        (_, ValueView::Closure(_, _, _)) => fail(ErrorView::CannotCompare, st),
        _ => done(false, st),
    }
}

/// A variable: the value of the thunk it is bound to.
pub open spec fn variable_model(st: State, env: Map<usize, usize>, name: Symbol, depth: nat) -> Outcome<
    ValueView,
>
    decreases depth, 4nat, 0nat,
{
    if env.contains_key(name.0) {
        force_model(st, env[name.0], depth)
    } else {
        fail(ErrorView::UndefinedVariable(name), st)
    }
}

/// A unary operator applied to the value of its operand.
pub open spec fn unary_model(
    st: State,
    env: Map<usize, usize>,
    op: UnaryOp,
    operand: Expr,
    depth: nat,
) -> Outcome<ValueView>
    decreases depth, 4nat, 0nat,
{
    let r = eval_model(st, env, operand, depth);
    match r.result {
        Err(_) => r,
        Ok(value) => Outcome { result: unary_apply(op, value), state: r.state },
    }
}

/// `+ - * / %`: both operands are evaluated, left before right, then the
/// operator is applied.
pub open spec fn arithmetic_op_model(
    st: State,
    env: Map<usize, usize>,
    op: BinaryOp,
    left: Expr,
    right: Expr,
    depth: nat,
) -> Outcome<ValueView>
    decreases depth, 4nat, 0nat,
{
    let l = eval_model(st, env, left, depth);
    match l.result {
        Err(_) => l,
        Ok(a) => {
            let r = eval_model(l.state, env, right, depth);
            match r.result {
                Err(_) => r,
                Ok(b) => Outcome { result: arithmetic_model(op, a, b), state: r.state },
            }
        },
    }
}

/// `==` and `!=`: both operands are evaluated, left before right, then
/// compared structurally; `negate` turns the answer round.
pub open spec fn equality_op_model(
    st: State,
    env: Map<usize, usize>,
    negate: bool,
    left: Expr,
    right: Expr,
    depth: nat,
) -> Outcome<ValueView>
    decreases depth, 4nat, 0nat,
{
    let l = eval_model(st, env, left, depth);
    match l.result {
        Err(_) => l,
        Ok(a) => {
            let r = eval_model(l.state, env, right, depth);
            match r.result {
                Err(_) => r,
                Ok(b) => {
                    let c = try_eq_model(r.state, a, b, depth);
                    match c.result {
                        Err(e) => fail(e, c.state),
                        Ok(same) => done(ValueView::Bool(same != negate), c.state),
                    }
                },
            }
        },
    }
}

/// `&&` and `||`: the left operand must be a truth value. If it is `stop`
/// (`false` for `&&`, `true` for `||`) it is the result and the right
/// operand is not evaluated; else the right operand is evaluated and must
/// be a truth value, which is the result.
pub open spec fn logical_op_model(
    st: State,
    env: Map<usize, usize>,
    stop: bool,
    left: Expr,
    right: Expr,
    depth: nat,
) -> Outcome<ValueView>
    decreases depth, 4nat, 0nat,
{
    let l = eval_model(st, env, left, depth);
    match l.result {
        Err(_) => l,
        Ok(a) => match truth_operand(a) {
            Err(e) => fail(e, l.state),
            Ok(first) => if first == stop {
                done(ValueView::Bool(stop), l.state)
            } else {
                let r = eval_model(l.state, env, right, depth);
                match r.result {
                    Err(_) => r,
                    Ok(b) => match truth_operand(b) {
                        Err(e) => fail(e, r.state),
                        Ok(second) => done(ValueView::Bool(second), r.state),
                    },
                }
            },
        },
    }
}

/// A binary operator.
pub open spec fn binary_model(
    st: State,
    env: Map<usize, usize>,
    op: BinaryOp,
    left: Expr,
    right: Expr,
    depth: nat,
) -> Outcome<ValueView>
    decreases depth, 5nat, 0nat,
{
    match op {
        BinaryOp::Eq => equality_op_model(st, env, false, left, right, depth),
        BinaryOp::NotEq => equality_op_model(st, env, true, left, right, depth),
        BinaryOp::And => logical_op_model(st, env, false, left, right, depth),
        BinaryOp::Or => logical_op_model(st, env, true, left, right, depth),
        _ => arithmetic_op_model(st, env, op, left, right, depth),
    }
}

/// `if`: the condition must be a truth value; exactly one branch is
/// evaluated.
pub open spec fn if_model(
    st: State,
    env: Map<usize, usize>,
    cond: Expr,
    then: Expr,
    otherwise: Expr,
    depth: nat,
) -> Outcome<ValueView>
    decreases depth, 4nat, 0nat,
{
    let c = eval_model(st, env, cond, depth);
    match c.result {
        Err(_) => c,
        Ok(value) => match value {
            ValueView::Bool(b) => if b {
                eval_model(c.state, env, then, depth)
            } else {
                eval_model(c.state, env, otherwise, depth)
            },
            _ => fail(ErrorView::ConditionMustBeBool { actual: value.erasure() }, c.state),
        },
    }
}

/// `local`: a new thunk defers the bound expression in the environment
/// that already binds the name to that thunk, so that the expression may
/// speak of its own name; the body is evaluated in that environment.
pub open spec fn local_model(
    st: State,
    env: Map<usize, usize>,
    name: Symbol,
    bound: Expr,
    body: Expr,
    depth: nat,
) -> Outcome<ValueView>
    decreases depth, 4nat, 0nat,
{
    let inner = env.insert(name.0, st.cells.len() as usize);
    eval_model(st.allocate(Some(inner), bound), inner, body, depth)
}

/// A call: the callee must be a closure with as many parameters as there
/// are arguments. Each argument is deferred in the caller's environment;
/// the body is evaluated in the closure's environment with the parameters
/// bound to those thunks.
pub open spec fn call_model(
    st: State,
    env: Map<usize, usize>,
    callee: Expr,
    args: Seq<Expr>,
    depth: nat,
) -> Outcome<ValueView>
    decreases depth, 4nat, 0nat,
{
    let f = eval_model(st, env, callee, depth);
    match f.result {
        Err(_) => f,
        Ok(value) => match value {
            ValueView::Closure(captured, params, body) => if args.len() != params.len() {
                fail(ErrorView::WrongNumberOfArguments, f.state)
            } else {
                eval_model(
                    f.state.allocate_each(env, args),
                    bind_params(captured, params, f.state.cells.len(), params.len()),
                    body,
                    depth,
                )
            },
            _ => fail(ErrorView::NotCallable, f.state),
        },
    }
}

/// The entry of `key` in a dictionary: its value forced, or the failure
/// that names the key's symbol, which is interned for it.
pub open spec fn entry_model(st: State, dict: Map<Seq<char>, usize>, key: Seq<char>, depth: nat) -> Outcome<
    ValueView,
>
    decreases depth, 4nat, 0nat,
{
    if dict.contains_key(key) {
        force_model(st, dict[key], depth)
    } else {
        let (id, names) = intern_model(st.names, key);
        fail(ErrorView::FieldDoesNotExist(Symbol(id)), st.with_names(names))
    }
}

/// The field `name` of a value: the value must be a dictionary, and the
/// symbol's name one of its keys. A symbol that the state has no name for
/// is the key of no entry.
pub open spec fn field_of_model(st: State, value: ValueView, name: Symbol, depth: nat) -> Outcome<
    ValueView,
>
    decreases depth, 4nat, 0nat,
{
    match value {
        ValueView::Dict(dict) => if name.0 < st.names.len() && dict.contains_key(
            st.names[name.0 as int],
        ) {
            force_model(st, dict[st.names[name.0 as int]], depth)
        } else {
            fail(ErrorView::FieldDoesNotExist(name), st)
        },
        _ => fail(bad_operand(Erasure::Dict.name(), value.erasure().name()), st),
    }
}

/// Field access: the operand is evaluated, then its field taken.
pub open spec fn field_model(
    st: State,
    env: Map<usize, usize>,
    operand: Expr,
    name: Symbol,
    depth: nat,
) -> Outcome<ValueView>
    decreases depth, 5nat, 0nat,
{
    let r = eval_model(st, env, operand, depth);
    match r.result {
        Err(_) => r,
        Ok(value) => field_of_model(r.state, value, name, depth),
    }
}

/// The kinds that can be indexed, as a diagnostic names them.
pub open spec fn indexable_kinds() -> Seq<char> {
    "Array or String or Dict"@
}

/// The index that an out-of-bounds failure reports for a number: the index
/// that the number stands for, or 0 for a number that truncates below zero.
pub open spec fn reported_index(number: u64) -> usize {
    match index_of(number) {
        Some(at) => at as usize,
        None => 0,
    }
}

/// The number stands for an index below `len`.
pub open spec fn in_bounds(number: u64, len: nat) -> bool {
    index_of(number) matches Some(at) && at < len
}

/// The item of `collection` at `index`. An array is indexed by a number,
/// truncated toward zero: the item at that index is forced. A string is
/// indexed by a number, truncated toward zero: the result is the string of
/// the one character at that position. An index that truncates below zero,
/// or is not below the length, is out of bounds. A dictionary is indexed
/// by a string, its key.
pub open spec fn item_model(st: State, collection: ValueView, index: ValueView, depth: nat) -> Outcome<
    ValueView,
>
    decreases depth, 5nat, 0nat,
{
    match collection {
        ValueView::Array(ids) => match index {
            ValueView::Number(n) => if in_bounds(n, ids.len()) {
                force_model(st, ids[index_of(n).unwrap() as int], depth)
            } else {
                fail(ErrorView::IndexOutOfBounds(reported_index(n)), st)
            },
            _ => fail(bad_operand(Erasure::Number.name(), index.erasure().name()), st),
        },
        ValueView::String(text) => match index {
            ValueView::Number(n) => if in_bounds(n, text.len()) {
                done(ValueView::String(seq![text[index_of(n).unwrap() as int]]), st)
            } else {
                fail(ErrorView::IndexOutOfBounds(reported_index(n)), st)
            },
            _ => fail(bad_operand(Erasure::Number.name(), index.erasure().name()), st),
        },
        ValueView::Dict(dict) => match index {
            ValueView::String(key) => entry_model(st, dict, key, depth),
            _ => fail(bad_operand(Erasure::String.name(), index.erasure().name()), st),
        },
        _ => fail(bad_operand(indexable_kinds(), collection.erasure().name()), st),
    }
}

/// Index access: the collection is evaluated, then the index, then the
/// item is taken.
pub open spec fn index_model(
    st: State,
    env: Map<usize, usize>,
    collection: Expr,
    index: Expr,
    depth: nat,
) -> Outcome<ValueView>
    decreases depth, 6nat, 0nat,
{
    let c = eval_model(st, env, collection, depth);
    match c.result {
        Err(_) => c,
        Ok(target) => {
            let i = eval_model(c.state, env, index, depth);
            match i.result {
                Err(_) => i,
                Ok(at) => item_model(i.state, target, at, depth),
            }
        },
    }
}

/// An array literal: one new thunk for each element, none of them forced.
pub open spec fn array_model(st: State, env: Map<usize, usize>, elements: Seq<Expr>) -> Outcome<
    ValueView,
> {
    done(
        ValueView::Array(fresh_ids(st.cells.len(), elements.len())),
        st.allocate_each(env, elements),
    )
}

/// A dictionary literal: one new thunk for each entry, none of them
/// forced; a key that occurs twice keeps its last entry.
pub open spec fn dict_model(
    st: State,
    env: Map<usize, usize>,
    pairs: Seq<(String, Rc<Expr>)>,
) -> Outcome<ValueView> {
    done(
        ValueView::Dict(bind_keys(entry_keys(pairs), st.cells.len(), pairs.len())),
        st.allocate_each(env, entry_exprs(pairs)),
    )
}

/// The value of an expression in an environment, within a depth budget.
/// A literal, a collection literal and a function literal evaluate nothing
/// and need no budget. Every other expression spends one unit of the budget
/// and evaluates what it holds with what is left; one that finds the budget
/// at 0 fails with `DepthExhausted`.
pub open spec fn eval_model(st: State, env: Map<usize, usize>, expr: Expr, depth: nat) -> Outcome<
    ValueView,
>
    decreases depth, 0nat, 0nat,
{
    match expr {
        Expr::Null => done(ValueView::Null, st),
        Expr::Bool(b) => done(ValueView::Bool(b), st),
        Expr::Number(n) => done(ValueView::Number(n.bits), st),
        Expr::String(text) => done(ValueView::String(text@), st),
        Expr::Array(elements) => array_model(st, env, exprs_of(elements@)),
        Expr::Dict(pairs) => dict_model(st, env, pairs@),
        Expr::Function(params, body) => done(ValueView::Closure(env, params@, *body), st),
        _ => if depth == 0 {
            fail(ErrorView::DepthExhausted, st)
        } else {
            let d = (depth - 1) as nat;
            match expr {
                Expr::Variable(name) => variable_model(st, env, name, d),
                Expr::UnaryOp(op, operand) => unary_model(st, env, op, *operand, d),
                Expr::BinaryOp(op, left, right) => binary_model(st, env, op, *left, *right, d),
                Expr::If(cond, then, otherwise) => if_model(st, env, *cond, *then, *otherwise, d),
                Expr::Local(name, bound, body) => local_model(st, env, name, *bound, *body, d),
                Expr::FunctionCall(callee, args) => call_model(
                    st,
                    env,
                    *callee,
                    exprs_of(args@),
                    d,
                ),
                Expr::FieldAccess(operand, name) => field_model(st, env, *operand, name, d),
                Expr::IndexAccess(collection, index) => index_model(
                    st,
                    env,
                    *collection,
                    *index,
                    d,
                ),
                _ => fail(ErrorView::DepthExhausted, st),
            }
        },
    }
}

/// Every state extends to itself.
pub proof fn lemma_extends_reflexive(st: State)
    ensures
        st.extends_to(st),
{
    assert(st.names.subrange(0, st.names.len() as int) =~= st.names);
}

/// What extends to a state extends to every state that it extends to.
pub proof fn lemma_extends_transitive(a: State, b: State, c: State)
    requires
        a.extends_to(b),
        b.extends_to(c),
    ensures
        a.extends_to(c),
{
    assert(c.names.subrange(0, a.names.len() as int) =~= b.names.subrange(
        0,
        a.names.len() as int,
    ));
    assert forall|i: int| 0 <= i < a.cells.len() implies {
        let before = #[trigger] a.cells[i];
        let after = c.cells[i];
        &&& after.expr == before.expr
        &&& before.env.is_some() ==> after.env == before.env
        &&& before.memo.is_some() ==> after.memo == before.memo
    } by {
        let middle = b.cells[i];
        assert(middle.expr == a.cells[i].expr);
    }
}

/// Where a state extends to a later one, and a thunk that had no value in
/// the first is made to remember a value, or nothing, in the later one, the
/// first state still extends to the result.
pub proof fn lemma_memo_extends(st: State, later: State, id: int, memo: Option<ValueView>)
    requires
        st.extends_to(later),
        0 <= id < st.cells.len(),
        st.cells[id].memo.is_none(),
    ensures
        st.extends_to(later.with_memo(id, memo)),
{
}

/// An environment that fits a state fits every state with as many thunks
/// or more.
pub proof fn lemma_env_fits_later(a: State, b: State, env: Map<usize, usize>)
    requires
        a.env_fits(env),
        a.cells.len() <= b.cells.len(),
    ensures
        b.env_fits(env),
{
}

/// A value that fits a state fits every state with as many thunks or more.
pub proof fn lemma_value_fits_later(a: State, b: State, value: ValueView)
    requires
        a.value_fits(value),
        a.cells.len() <= b.cells.len(),
    ensures
        b.value_fits(value),
{
}

/// A state holds every thunk of an array that fits it.
pub proof fn lemma_item_fits(st: State, ids: Seq<usize>, i: int)
    requires
        st.value_fits(ValueView::Array(ids)),
        0 <= i < ids.len(),
    ensures
        ids[i] < st.cells.len(),
{
}

/// Making thunks one by one makes the thunks of `allocate_each`.
pub proof fn lemma_allocate_each_step(st: State, env: Map<usize, usize>, exprs: Seq<Expr>, i: int)
    requires
        0 <= i < exprs.len(),
    ensures
        st.allocate_each(env, exprs.take(i)).allocate(Some(env), exprs[i]) == st.allocate_each(
            env,
            exprs.take(i + 1),
        ),
{
    let a = st.allocate_each(env, exprs.take(i)).allocate(Some(env), exprs[i]);
    let b = st.allocate_each(env, exprs.take(i + 1));
    assert(a.cells =~= b.cells);
}

/// Making no thunk leaves the state as it is, and making a thunk for each
/// expression of a list makes the thunks of the whole list.
pub proof fn lemma_allocate_each_ends(st: State, env: Map<usize, usize>, exprs: Seq<Expr>)
    ensures
        st.allocate_each(env, exprs.take(0)) == st,
        st.allocate_each(env, exprs.take(exprs.len() as int)) == st.allocate_each(env, exprs),
{
    assert(st.allocate_each(env, exprs.take(0)).cells =~= st.cells);
    assert(exprs.take(exprs.len() as int) =~= exprs);
}

/// New thunks with an environment that fits keep a state consistent, and
/// ready if it was; the state extends to the new one.
pub proof fn lemma_allocate_each_wf(st: State, env: Map<usize, usize>, exprs: Seq<Expr>)
    requires
        st.wf(),
        st.env_fits(env),
    ensures
        st.allocate_each(env, exprs).wf(),
        st.ready() ==> st.allocate_each(env, exprs).ready(),
        st.extends_to(st.allocate_each(env, exprs)),
        st.allocate_each(env, exprs).cells.len() == st.cells.len() + exprs.len(),
{
    let after = st.allocate_each(env, exprs);
    assert(after.names.subrange(0, st.names.len() as int) =~= st.names);
    assert forall|i: int| 0 <= i < after.cells.len() implies after.cell_fits(
        #[trigger] after.cells[i],
    ) by {
        if i < st.cells.len() {
            assert(st.cell_fits(st.cells[i]));
            assert(after.cells[i] == st.cells[i]);
        }
    }
    if st.ready() {
        assert forall|i: int| 0 <= i < after.cells.len() implies (
        #[trigger] after.cells[i]).env.is_some() by {
            if i < st.cells.len() {
                assert(after.cells[i] == st.cells[i]);
            }
        }
    }
}

/// The dictionary of a literal is finite and names only the new thunks.
pub proof fn lemma_bind_keys_fits(keys: Seq<Seq<char>>, base: nat, count: nat)
    requires
        base + count <= usize::MAX,
    ensures
        bind_keys(keys, base, count).dom().finite(),
        forall|key: Seq<char>| #[trigger]
            bind_keys(keys, base, count).contains_key(key) ==> bind_keys(keys, base, count)[key]
                < base + count,
    decreases count,
{
    if count > 0 {
        lemma_bind_keys_fits(keys, base, (count - 1) as nat);
    }
}

/// The environment of a call names only thunks that exist.
pub proof fn lemma_bind_params_fits(
    st: State,
    env: Map<usize, usize>,
    params: Seq<Symbol>,
    base: nat,
    count: nat,
)
    requires
        st.env_fits(env),
        base + count <= st.cells.len(),
        st.cells.len() <= usize::MAX,
    ensures
        st.env_fits(bind_params(env, params, base, count)),
    decreases count,
{
    if count > 0 {
        lemma_bind_params_fits(st, env, params, base, (count - 1) as nat);
    }
}

} // verus!
