//! Runtime values, the thunks that arrays, dictionaries and environments
//! hold, and the runtime state in which thunks live.

use crate::ast::Expr;
use crate::eval::{eval_expr, Env, EvalError};
use crate::number::Number;
use crate::order::{keys_of, sorted_entries};
use crate::persistent::{
    entries, entries_clone, entries_get, entries_len, items, items_clone, items_get, items_len, Dict,
};
use crate::semantics::{
    entries_eq_model, force_model, items_eq_model, lemma_extends_reflexive,
    lemma_extends_transitive, lemma_item_fits, lemma_memo_extends, lemma_value_fits_later, try_eq_model, CellView,
    ErrorView, Outcome, State, ValueView,
};
use crate::symbol::{intern_model, Symbol, SymbolTable};
use crate::types::Erasure;
use std::rc::Rc;
use vstd::prelude::*;

verus! {

/// A runtime value. Arrays and dictionaries hold thunks, not values:
/// an element is evaluated when it is first looked at.
#[derive(Debug)]
pub enum Value {
    Null,
    Bool(bool),
    Number(Number),
    String(Rc<String>),
    Array(im_rc::Vector<usize>),
    Dict(Dict),
    Closure(Env, Vec<Symbol>, Rc<Expr>),
}

impl View for Value {
    type V = ValueView;

    open spec fn view(&self) -> ValueView {
        match *self {
            Value::Null => ValueView::Null,
            Value::Bool(b) => ValueView::Bool(b),
            Value::Number(n) => ValueView::Number(n.bits),
            Value::String(text) => ValueView::String(text@),
            Value::Array(vector) => ValueView::Array(items(vector)),
            Value::Dict(dict) => ValueView::Dict(entries(dict)),
            Value::Closure(env, params, body) => ValueView::Closure(env@, params@, *body),
        }
    }
}

impl Clone for Value {
    /// A value with the same view. Collections and environments share their
    /// structure with this one.
    fn clone(&self) -> (r: Self)
        ensures
            r@ == self@,
    {
        match self {
            Value::Null => Value::Null,
            Value::Bool(b) => Value::Bool(*b),
            Value::Number(n) => Value::Number(*n),
            Value::String(text) => Value::String(text.clone()),
            Value::Array(vector) => Value::Array(items_clone(vector)),
            Value::Dict(dict) => Value::Dict(entries_clone(dict)),
            Value::Closure(env, params, body) => {
                let copy = params.clone();
                assert(copy@ =~= params@);
                Value::Closure(env.clone(), copy, body.clone())
            },
        }
    }
}

impl Value {
    /// The coarse kind of the value.
    pub fn erasure(&self) -> (kind: Erasure)
        ensures
            kind == self@.erasure(),
    {
        match self {
            Value::Null => Erasure::Null,
            Value::Bool(_) => Erasure::Bool,
            Value::Number(_) => Erasure::Number,
            Value::String(_) => Erasure::String,
            Value::Array(_) => Erasure::Array,
            Value::Dict(_) => Erasure::Dict,
            Value::Closure(_, _, _) => Erasure::Function,
        }
    }
}

/// What the runtime holds of a thunk.
struct Cell {
    env: Option<Env>,
    expr: Rc<Expr>,
    memo: Option<Value>,
}

impl View for Cell {
    type V = CellView;

    closed spec fn view(&self) -> CellView {
        CellView {
            env: match self.env {
                Some(env) => Some(env@),
                None => None,
            },
            expr: *self.expr,
            memo: match self.memo {
                Some(value) => Some(value@),
                None => None,
            },
        }
    }
}

/// The runtime state: the thunks made so far and the table of interned
/// names. Environments and values name thunks of the runtime that made
/// them.
pub struct Runtime {
    symbols: SymbolTable,
    cells: Vec<Cell>,
}

impl View for Runtime {
    type V = State;

    closed spec fn view(&self) -> State {
        State { cells: self.cells@.map_values(|cell: Cell| cell@), names: self.symbols@ }
    }
}

/// A thunk: a deferred evaluation of an expression in an environment, which
/// remembers its value once it has been forced with success. The thunk
/// itself lives in the runtime; this is the handle to it.
#[derive(Clone, Copy, Debug)]
pub struct Thunk {
    pub id: usize,
}

/// The result of an evaluation and the state it left, as the model has them.
pub open spec fn value_outcome(r: Result<Value, EvalError>, rt: Runtime) -> Outcome<ValueView> {
    Outcome {
        result: match r {
            Ok(value) => Ok(value@),
            Err(error) => Err(error@),
        },
        state: rt@,
    }
}

/// The result of a comparison and the state it left, as the model has them.
pub open spec fn bool_outcome(r: Result<bool, EvalError>, rt: Runtime) -> Outcome<bool> {
    Outcome {
        result: match r {
            Ok(same) => Ok(same),
            Err(error) => Err(error@),
        },
        state: rt@,
    }
}

impl Runtime {
    /// The table of names is consistent.
    pub closed spec fn names_indexed(&self) -> bool {
        self.symbols.wf()
    }

    /// The runtime is consistent.
    pub open spec fn wf(&self) -> bool {
        self.names_indexed() && self@.wf() && self@.cells.len() <= usize::MAX
    }

    /// The runtime is consistent and every thunk can be forced.
    pub open spec fn ready(&self) -> bool {
        self.wf() && self@.ready()
    }

    /// A runtime without thunks and without names.
    pub fn new() -> (rt: Runtime)
        ensures
            rt.ready(),
            rt@.cells.len() == 0,
            rt@.names.len() == 0,
    {
        Runtime { symbols: SymbolTable::new(), cells: Vec::new() }
    }

    /// The number of thunks made so far.
    pub fn thunk_count(&self) -> (n: usize)
        ensures
            n == self@.cells.len(),
    {
        self.cells.len()
    }

    /// The number of names interned so far.
    pub fn symbol_count(&self) -> (n: usize)
        ensures
            n == self@.names.len(),
    {
        self.symbols.len()
    }

    /// The symbol of `name`: the same symbol for the same name on every
    /// call. The thunks are left as they are.
    pub fn intern(&mut self, name: &str) -> (symbol: Symbol)
        requires
            old(self).wf(),
        ensures
            final(self).wf(),
            old(self).ready() ==> final(self).ready(),
            old(self)@.extends_to(final(self)@),
            (symbol.0, final(self)@.names) == intern_model(old(self)@.names, name@),
            final(self)@ == old(self)@.with_names(final(self)@.names),
            symbol.0 < final(self)@.names.len(),
            final(self)@.names[symbol.0 as int] == name@,
    {
        proof {
            crate::symbol::lemma_intern_extends(self@.names, name@);
        }
        self.symbols.intern(name)
    }

    /// The name of a symbol, or `None` for a symbol that this runtime did
    /// not make.
    pub fn resolve(&self, symbol: Symbol) -> (name: Option<&str>)
        ensures
            match name {
                Some(text) => symbol.0 < self@.names.len() && text@ == self@.names[symbol.0 as int],
                None => symbol.0 >= self@.names.len(),
            },
    {
        self.symbols.resolve(symbol)
    }
}

impl Runtime {
    /// The remembered value of a thunk, if it has one.
    fn memo_of(&self, id: usize) -> (memo: Option<Value>)
        requires
            id < self@.cells.len(),
        ensures
            match memo {
                Some(value) => self@.cells[id as int].memo == Some(value@),
                None => self@.cells[id as int].memo.is_none(),
            },
    {
        match &self.cells[id].memo {
            Some(value) => Some(value.clone()),
            None => None,
        }
    }

    /// The environment of a thunk, if it has one.
    fn env_of(&self, id: usize) -> (env: Option<Env>)
        requires
            id < self@.cells.len(),
        ensures
            match env {
                Some(found) => self@.cells[id as int].env == Some(found@),
                None => self@.cells[id as int].env.is_none(),
            },
    {
        match &self.cells[id].env {
            Some(env) => Some(env.clone()),
            None => None,
        }
    }

    /// Whether a thunk has its environment.
    fn has_env(&self, id: usize) -> (bound: bool)
        requires
            id < self@.cells.len(),
        ensures
            bound == self@.cells[id as int].env.is_some(),
    {
        self.cells[id].env.is_some()
    }

    /// The expression of a thunk.
    fn expr_of(&self, id: usize) -> (expr: Rc<Expr>)
        requires
            id < self@.cells.len(),
        ensures
            self@.cells[id as int].expr == *expr,
    {
        self.cells[id].expr.clone()
    }

    /// Makes a thunk and gives its number.
    fn push_cell(&mut self, env: Option<Env>, expr: Rc<Expr>) -> (id: usize)
        requires
            old(self).wf(),
            env matches Some(e) ==> old(self)@.env_fits(e@),
        ensures
            final(self).wf(),
            old(self).ready() && env.is_some() ==> final(self).ready(),
            old(self)@.extends_to(final(self)@),
            id == old(self)@.cells.len(),
            final(self)@ == old(self)@.allocate(
                match env {
                    Some(e) => Some(e@),
                    None => None,
                },
                *expr,
            ),
    {
        let id = self.cells.len();
        let ghost before = self@;
        let cell = Cell { env, expr, memo: None };
        self.cells.push(cell);
        let count = self.cells.len();
        proof {
            assert(count == self@.cells.len());
            assert(self@.cells =~= before.cells.push(cell@));
            assert(self@.names.subrange(0, before.names.len() as int) =~= before.names);
            assert forall|i: int| 0 <= i < self@.cells.len() implies self@.cell_fits(
                #[trigger] self@.cells[i],
            ) by {
                if i < before.cells.len() {
                    assert(before.cell_fits(before.cells[i]));
                }
            }
        }
        id
    }

    /// Gives a thunk its environment, unless it has one.
    fn fill_env(&mut self, id: usize, env: Env)
        requires
            old(self).wf(),
            id < old(self)@.cells.len(),
            old(self)@.env_fits(env@),
        ensures
            final(self).wf(),
            old(self)@.extends_to(final(self)@),
            final(self)@ == old(self)@.with_env(id as int, env@),
    {
        let ghost before = self@;
        if self.cells[id].env.is_none() {
            let expr = self.cells[id].expr.clone();
            let memo = match &self.cells[id].memo {
                Some(value) => Some(value.clone()),
                None => None,
            };
            let cell = Cell { env: Some(env), expr, memo };
            self.cells.set(id, cell);
            proof {
                assert(self@.cells =~= before.cells.update(id as int, cell@));
                assert(self@.names.subrange(0, before.names.len() as int) =~= before.names);
                assert forall|i: int| 0 <= i < self@.cells.len() implies self@.cell_fits(
                    #[trigger] self@.cells[i],
                ) by {
                    assert(before.cell_fits(before.cells[i]));
                }
            }
        } else {
            proof {
                assert(self@.names.subrange(0, before.names.len() as int) =~= before.names);
            }
        }
    }

    /// Has a thunk remember `memo`: a value, or nothing.
    fn set_memo(&mut self, id: usize, memo: Option<Value>)
        requires
            old(self).wf(),
            id < old(self)@.cells.len(),
            memo matches Some(value) ==> old(self)@.value_fits(value@),
        ensures
            final(self).wf(),
            old(self).ready() ==> final(self).ready(),
            final(self)@ == old(self)@.with_memo(
                id as int,
                match memo {
                    Some(value) => Some(value@),
                    None => None,
                },
            ),
    {
        let ghost before = self@;
        proof {
            assert(before.cell_fits(before.cells[id as int]));
        }
        let expr = self.cells[id].expr.clone();
        let env = match &self.cells[id].env {
            Some(env) => Some(env.clone()),
            None => None,
        };
        let cell = Cell { env, expr, memo };
        self.cells.set(id, cell);
        proof {
            assert(self@.cells =~= before.cells.update(id as int, cell@));
            assert forall|i: int| 0 <= i < self@.cells.len() implies self@.cell_fits(
                #[trigger] self@.cells[i],
            ) by {
                assert(before.cell_fits(before.cells[i]));
            }
            if before.ready() {
                assert forall|i: int| 0 <= i < self@.cells.len() implies (
                #[trigger] self@.cells[i]).env.is_some() by {
                    assert(before.cells[i].env.is_some());
                }
            }
        }
    }
}

impl Thunk {
    /// A new thunk that defers `expr` in `env`.
    pub fn new(rt: &mut Runtime, env: Env, expr: Rc<Expr>) -> (thunk: Thunk)
        requires
            old(rt).wf(),
            old(rt)@.env_fits(env@),
        ensures
            final(rt).wf(),
            old(rt).ready() ==> final(rt).ready(),
            old(rt)@.extends_to(final(rt)@),
            thunk.id == old(rt)@.cells.len(),
            final(rt)@ == old(rt)@.allocate(Some(env@), *expr),
    {
        Thunk { id: rt.push_cell(Some(env), expr) }
    }

    /// A new thunk that defers `expr` and has no environment yet. It must
    /// be given one with `set_env` before it is forced.
    pub fn partial_new(rt: &mut Runtime, expr: Rc<Expr>) -> (thunk: Thunk)
        requires
            old(rt).wf(),
        ensures
            final(rt).wf(),
            old(rt)@.extends_to(final(rt)@),
            thunk.id == old(rt)@.cells.len(),
            final(rt)@ == old(rt)@.allocate(None, *expr),
    {
        Thunk { id: rt.push_cell(None, expr) }
    }

    /// Whether the thunk has its environment, so that it can be forced.
    pub fn is_bound(&self, rt: &Runtime) -> (bound: bool)
        requires
            self.id < rt@.cells.len(),
        ensures
            bound == rt@.cells[self.id as int].env.is_some(),
    {
        rt.has_env(self.id)
    }

    /// Gives the thunk its environment. A thunk that has one keeps it.
    pub fn set_env(&self, rt: &mut Runtime, env: Env)
        requires
            old(rt).wf(),
            self.id < old(rt)@.cells.len(),
            old(rt)@.env_fits(env@),
        ensures
            final(rt).wf(),
            old(rt)@.extends_to(final(rt)@),
            final(rt)@ == old(rt)@.with_env(self.id as int, env@),
    {
        rt.fill_env(self.id, env)
    }
}

/// The evaluation that the model gives as `expected` is admitted: it does
/// not force a thunk that has neither a value nor an environment. That is
/// so in every runtime in which every thunk has its environment.
pub open spec fn admitted<T>(rt: Runtime, expected: Outcome<T>) -> bool {
    rt.ready() || expected.result != Err::<T, ErrorView>(ErrorView::EnvNotSet)
}

/// An evaluation that started in `before` has left `after` and `r`, which
/// are what the model gives as `expected`. The runtime is still consistent,
/// holds all that it held, and holds every thunk that the value names. No
/// thunk without environment was forced; if every thunk had its
/// environment, every thunk has it now.
pub open spec fn evaluated(
    before: Runtime,
    after: Runtime,
    r: Result<Value, EvalError>,
    expected: Outcome<ValueView>,
) -> bool {
    &&& after.wf()
    &&& before.ready() ==> after.ready()
    &&& expected.result != Err::<ValueView, ErrorView>(ErrorView::EnvNotSet)
    &&& before@.extends_to(after@)
    &&& (r matches Ok(value) ==> after@.value_fits(value@))
    &&& value_outcome(r, after) == expected
}

/// A comparison that started in `before` has left `after` and `r`, which
/// are what the model gives as `expected`. The runtime is still consistent
/// and holds all that it held. No thunk without environment was forced; if
/// every thunk had its environment, every thunk has it now.
pub open spec fn compared(
    before: Runtime,
    after: Runtime,
    r: Result<bool, EvalError>,
    expected: Outcome<bool>,
) -> bool {
    &&& after.wf()
    &&& before.ready() ==> after.ready()
    &&& expected.result != Err::<bool, ErrorView>(ErrorView::EnvNotSet)
    &&& before@.extends_to(after@)
    &&& bool_outcome(r, after) == expected
}

impl Thunk {
    /// The value of the thunk. The first call that succeeds evaluates the
    /// expression in the thunk's environment and has the thunk remember the
    /// value; every later call gives the remembered value and evaluates
    /// nothing. A call that fails leaves the thunk without a value, so that
    /// the next call evaluates again.
    ///
    /// The thunk must have been given its environment, or remember a value
    /// already, and so must every thunk that the evaluation forces.
    pub fn force(&self, rt: &mut Runtime, depth: usize) -> (r: Result<Value, EvalError>)
        requires
            old(rt).wf(),
            self.id < old(rt)@.cells.len(),
            old(rt)@.cells[self.id as int].memo.is_some() || old(rt)@.cells[self.id as int].env.is_some(
            ),
            admitted(*old(rt), force_model(old(rt)@, self.id, depth as nat)),
        ensures
            evaluated(*old(rt), *final(rt), r, force_model(old(rt)@, self.id, depth as nat)),
        decreases depth, 1nat, 0nat,
    {
        proof {
            lemma_extends_reflexive(rt@);
            assert(rt@.cell_fits(rt@.cells[self.id as int]));
        }
        match rt.memo_of(self.id) {
            Some(value) => {
                return Ok(value);
            },
            None => {},
        }
        let env = match rt.env_of(self.id) {
            Some(env) => env,
            None => unreached(),
        };
        let expr = rt.expr_of(self.id);
        let ghost start = rt@;
        let r = eval_expr(rt, &env, &expr, depth);
        let ghost middle = rt@;
        match r {
            Err(error) => {
                rt.set_memo(self.id, None);
                proof {
                    lemma_memo_extends(start, middle, self.id as int, None);
                }
                Err(error)
            },
            Ok(value) => {
                rt.set_memo(self.id, Some(value.clone()));
                proof {
                    lemma_memo_extends(start, middle, self.id as int, Some(value@));
                    lemma_value_fits_later(middle, rt@, value@);
                }
                Ok(value)
            },
        }
    }
}

impl Value {
    /// Structural equality of two values, which forces the thunks of arrays
    /// and dictionaries as far as the answer needs them.
    pub fn try_eq(rt: &mut Runtime, lhs: &Value, rhs: &Value, depth: usize) -> (r: Result<
        bool,
        EvalError,
    >)
        requires
            old(rt).wf(),
            old(rt)@.value_fits(lhs@),
            old(rt)@.value_fits(rhs@),
            admitted(*old(rt), try_eq_model(old(rt)@, lhs@, rhs@, depth as nat)),
        ensures
            compared(*old(rt), *final(rt), r, try_eq_model(old(rt)@, lhs@, rhs@, depth as nat)),
        decreases depth, 3nat, 0nat,
    {
        proof {
            lemma_extends_reflexive(rt@);
        }
        match (lhs, rhs) {
            (Value::Null, Value::Null) => Ok(true),
            (Value::Bool(a), Value::Bool(b)) => Ok(*a == *b),
            (Value::Number(a), Value::Number(b)) => Ok(a.ieee_eq(*b)),
            (Value::String(a), Value::String(b)) => Ok(same_text(a, b)),
            (Value::Array(a), Value::Array(b)) => {
                if items_len(a) != items_len(b) {
                    Ok(false)
                } else {
                    items_eq(rt, a, b, depth)
                }
            },
            (Value::Dict(a), Value::Dict(b)) => {
                let keyed = sorted_entries(a);
                if keyed.len() != entries_len(b) {
                    Ok(false)
                } else {
                    entries_eq(rt, &keyed, a, b, depth)
                }
            },
            (Value::Closure(_, _, _), _) => Err(EvalError::CannotCompare),
            (_, Value::Closure(_, _, _)) => Err(EvalError::CannotCompare),
            _ => Ok(false),
        }
    }
}

/// Whether two strings hold the same characters.
fn same_text(a: &Rc<String>, b: &Rc<String>) -> (same: bool)
    ensures
        same == (a@ == b@),
{
    let left: &String = a;
    let right: &String = b;
    *left == *right
}

/// Compares the items of two arrays of the same length, in order.
fn items_eq(
    rt: &mut Runtime,
    left: &im_rc::Vector<usize>,
    right: &im_rc::Vector<usize>,
    depth: usize,
) -> (r: Result<bool, EvalError>)
    requires
        old(rt).wf(),
        old(rt)@.value_fits(ValueView::Array(items(*left))),
        old(rt)@.value_fits(ValueView::Array(items(*right))),
        items(*left).len() == items(*right).len(),
        admitted(*old(rt), items_eq_model(old(rt)@, items(*left), items(*right), 0, depth as nat)),
    ensures
        compared(
            *old(rt),
            *final(rt),
            r,
            items_eq_model(old(rt)@, items(*left), items(*right), 0, depth as nat),
        ),
    decreases depth, 2nat, 0nat,
{
    let ghost start = rt@;
    let ghost xs = items(*left);
    let ghost ys = items(*right);
    let count = items_len(left);
    let mut at: usize = 0;
    proof {
        lemma_extends_reflexive(start);
    }
    while at < count
        invariant
            at <= count,
            start == old(rt)@,
            count == xs.len(),
            xs.len() == ys.len(),
            xs == items(*left),
            ys == items(*right),
            rt.wf(),
            old(rt).ready() ==> rt.ready(),
            admitted(*old(rt), items_eq_model(start, xs, ys, 0, depth as nat)),
            start.extends_to(rt@),
            rt@.value_fits(ValueView::Array(xs)),
            rt@.value_fits(ValueView::Array(ys)),
            items_eq_model(rt@, xs, ys, at as nat, depth as nat) == items_eq_model(
                start,
                xs,
                ys,
                0,
                depth as nat,
            ),
        decreases count - at,
    {
        if depth == 0 {
            return Err(EvalError::DepthExhausted);
        }
        let before = Ghost(rt@);
        let x = match items_get(left, at) {
            Some(id) => id,
            None => unreached(),
        };
        let y = match items_get(right, at) {
            Some(id) => id,
            None => unreached(),
        };
        assert(x == xs[at as int] && y == ys[at as int]);
        proof {
            lemma_item_fits(rt@, xs, at as int);
        }
        let a = match (Thunk { id: x }).force(rt, depth - 1) {
            Ok(value) => value,
            Err(error) => {
                proof {
                    lemma_extends_transitive(start, before@, rt@);
                }
                return Err(error);
            },
        };
        let ghost second = rt@;
        proof {
            lemma_value_fits_later(before@, second, ValueView::Array(ys));
            lemma_item_fits(second, ys, at as int);
        }
        let b = match (Thunk { id: y }).force(rt, depth - 1) {
            Ok(value) => value,
            Err(error) => {
                proof {
                    lemma_extends_transitive(before@, second, rt@);
                    lemma_extends_transitive(start, before@, rt@);
                }
                return Err(error);
            },
        };
        let ghost third = rt@;
        let same = Value::try_eq(rt, &a, &b, depth - 1);
        proof {
            lemma_extends_transitive(before@, second, third);
            lemma_extends_transitive(before@, third, rt@);
            lemma_extends_transitive(start, before@, rt@);
        }
        match same {
            Ok(true) => {},
            Ok(false) => {
                return Ok(false);
            },
            Err(error) => {
                return Err(error);
            },
        }
        at = at + 1;
    }
    Ok(true)
}

/// Compares the entries of two dictionaries of the same size, the keys of
/// the left one taken in ascending order.
fn entries_eq(
    rt: &mut Runtime,
    keyed: &Vec<(String, usize)>,
    left: &Dict,
    right: &Dict,
    depth: usize,
) -> (r: Result<bool, EvalError>)
    requires
        old(rt).wf(),
        old(rt)@.value_fits(ValueView::Dict(entries(*left))),
        old(rt)@.value_fits(ValueView::Dict(entries(*right))),
        forall|i: int|
            0 <= i < keyed@.len() ==> entries(*left).contains_key(#[trigger] keyed@[i].0@)
                && entries(*left)[keyed@[i].0@] == keyed@[i].1,
        admitted(
            *old(rt),
            entries_eq_model(
                old(rt)@,
                keys_of(keyed@),
                entries(*left),
                entries(*right),
                0,
                depth as nat,
            ),
        ),
    ensures
        compared(
            *old(rt),
            *final(rt),
            r,
            entries_eq_model(
                old(rt)@,
                keys_of(keyed@),
                entries(*left),
                entries(*right),
                0,
                depth as nat,
            ),
        ),
    decreases depth, 2nat, 0nat,
{
    let ghost start = rt@;
    let ghost keys = keys_of(keyed@);
    let ghost xs = entries(*left);
    let ghost ys = entries(*right);
    let count = keyed.len();
    let mut at: usize = 0;
    proof {
        lemma_extends_reflexive(start);
    }
    while at < count
        invariant
            at <= count,
            start == old(rt)@,
            count == keyed@.len(),
            keys == keys_of(keyed@),
            xs == entries(*left),
            ys == entries(*right),
            forall|i: int|
                0 <= i < keyed@.len() ==> xs.contains_key(#[trigger] keyed@[i].0@)
                    && xs[keyed@[i].0@] == keyed@[i].1,
            rt.wf(),
            old(rt).ready() ==> rt.ready(),
            admitted(*old(rt), entries_eq_model(start, keys, xs, ys, 0, depth as nat)),
            start.extends_to(rt@),
            rt@.value_fits(ValueView::Dict(xs)),
            rt@.value_fits(ValueView::Dict(ys)),
            entries_eq_model(rt@, keys, xs, ys, at as nat, depth as nat) == entries_eq_model(
                start,
                keys,
                xs,
                ys,
                0,
                depth as nat,
            ),
        decreases count - at,
    {
        let before = Ghost(rt@);
        assert(keys[at as int] == keyed@[at as int].0@);
        let x = keyed[at].1;
        let y = match entries_get(right, keyed[at].0.as_str()) {
            Some(id) => id,
            None => {
                return Ok(false);
            },
        };
        if depth == 0 {
            return Err(EvalError::DepthExhausted);
        }
        let a = match (Thunk { id: x }).force(rt, depth - 1) {
            Ok(value) => value,
            Err(error) => {
                proof {
                    lemma_extends_transitive(start, before@, rt@);
                }
                return Err(error);
            },
        };
        let ghost second = rt@;
        let b = match (Thunk { id: y }).force(rt, depth - 1) {
            Ok(value) => value,
            Err(error) => {
                proof {
                    lemma_extends_transitive(before@, second, rt@);
                    lemma_extends_transitive(start, before@, rt@);
                }
                return Err(error);
            },
        };
        let ghost third = rt@;
        let same = Value::try_eq(rt, &a, &b, depth - 1);
        proof {
            lemma_extends_transitive(before@, second, third);
            lemma_extends_transitive(before@, third, rt@);
            lemma_extends_transitive(start, before@, rt@);
        }
        match same {
            Ok(true) => {},
            Ok(false) => {
                return Ok(false);
            },
            Err(error) => {
                return Err(error);
            },
        }
        at = at + 1;
    }
    Ok(true)
}

} // verus!
