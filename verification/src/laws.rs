//! Laws of the language, proved of its model.

use crate::ast::{BinaryOp, Expr, UnaryOp};
use crate::json::{
    serialize_entries_model, serialize_items_model, serialize_model, JsonView, Rendered,
    SerializeErrorView,
};
use crate::number::{index_of, truncates_below_zero};
use crate::order::{ascending, lemma_sorted_keys_exist, sorted_keys};
use crate::semantics::{
    lemma_memo_extends,
    arithmetic_op_model, binary_model, call_model, done, entries_eq_model, entry_exprs, entry_model,
    equality_op_model, eval_model, exprs_of, fail, field_of_model, force_model, fresh_ids,
    in_bounds, item_model, items_eq_model, lemma_extends_reflexive, lemma_extends_transitive,
    local_model, logical_op_model, reported_index, try_eq_model, variable_model, CellView,
    ErrorView, State, ValueView,
};
use crate::symbol::{intern_model, lemma_intern_extends, Symbol};
use std::rc::Rc;
use vstd::prelude::*;

verus! {

/// New thunks extend a state.
pub proof fn lemma_allocate_extends(st: State, env: Map<usize, usize>, exprs: Seq<Expr>)
    ensures
        st.extends_to(st.allocate_each(env, exprs)),
        forall|bound: Expr| st.extends_to(#[trigger] st.allocate(Some(env), bound)),
{
    assert(st.names.subrange(0, st.names.len() as int) =~= st.names);
}

/// Forcing a thunk loses nothing: the state before extends to the state
/// after.
pub proof fn lemma_force_extends(st: State, id: usize, depth: nat)
    ensures
        st.extends_to(force_model(st, id, depth).state),
    decreases depth, 1nat, 0nat,
{
    lemma_extends_reflexive(st);
    let cell = st.cells[id as int];
    if cell.memo.is_none() && cell.env.is_some() {
        let r = eval_model(st, cell.env.unwrap(), cell.expr, depth);
        lemma_eval_extends(st, cell.env.unwrap(), cell.expr, depth);
        if 0 <= id < st.cells.len() {
            match r.result {
                Ok(value) => lemma_memo_extends(st, r.state, id as int, Some(value)),
                Err(_) => lemma_memo_extends(st, r.state, id as int, None),
            }
        }
    }
}

/// Comparing the items of two arrays loses nothing.
pub proof fn lemma_items_eq_extends(
    st: State,
    left: Seq<usize>,
    right: Seq<usize>,
    from: nat,
    depth: nat,
)
    ensures
        st.extends_to(items_eq_model(st, left, right, from, depth).state),
    decreases depth, 2nat, left.len() - from,
{
    lemma_extends_reflexive(st);
    if from < left.len() && depth > 0 {
        let d = (depth - 1) as nat;
        let a = force_model(st, left[from as int], d);
        lemma_force_extends(st, left[from as int], d);
        if let Ok(x) = a.result {
            let b = force_model(a.state, right[from as int], d);
            lemma_force_extends(a.state, right[from as int], d);
            lemma_extends_transitive(st, a.state, b.state);
            if let Ok(y) = b.result {
                let c = try_eq_model(b.state, x, y, d);
                lemma_try_eq_extends(b.state, x, y, d);
                lemma_extends_transitive(st, b.state, c.state);
                if c.result == Ok::<bool, ErrorView>(true) {
                    let rest = items_eq_model(c.state, left, right, from + 1, depth);
                    lemma_items_eq_extends(c.state, left, right, from + 1, depth);
                    lemma_extends_transitive(st, c.state, rest.state);
                }
            }
        }
    }
}

/// Comparing the entries of two dictionaries loses nothing.
pub proof fn lemma_entries_eq_extends(
    st: State,
    keys: Seq<Seq<char>>,
    left: Map<Seq<char>, usize>,
    right: Map<Seq<char>, usize>,
    from: nat,
    depth: nat,
)
    ensures
        st.extends_to(entries_eq_model(st, keys, left, right, from, depth).state),
    decreases depth, 2nat, keys.len() - from,
{
    lemma_extends_reflexive(st);
    if from < keys.len() && right.contains_key(keys[from as int]) && depth > 0 {
        let d = (depth - 1) as nat;
        let key = keys[from as int];
        let a = force_model(st, left[key], d);
        lemma_force_extends(st, left[key], d);
        if let Ok(x) = a.result {
            let b = force_model(a.state, right[key], d);
            lemma_force_extends(a.state, right[key], d);
            lemma_extends_transitive(st, a.state, b.state);
            if let Ok(y) = b.result {
                let c = try_eq_model(b.state, x, y, d);
                lemma_try_eq_extends(b.state, x, y, d);
                lemma_extends_transitive(st, b.state, c.state);
                if c.result == Ok::<bool, ErrorView>(true) {
                    let rest = entries_eq_model(c.state, keys, left, right, from + 1, depth);
                    lemma_entries_eq_extends(c.state, keys, left, right, from + 1, depth);
                    lemma_extends_transitive(st, c.state, rest.state);
                }
            }
        }
    }
}

/// Comparing two values loses nothing.
pub proof fn lemma_try_eq_extends(st: State, left: ValueView, right: ValueView, depth: nat)
    ensures
        st.extends_to(try_eq_model(st, left, right, depth).state),
    decreases depth, 3nat, 0nat,
{
    lemma_extends_reflexive(st);
    match (left, right) {
        (ValueView::Array(a), ValueView::Array(b)) => {
            if a.len() == b.len() {
                lemma_items_eq_extends(st, a, b, 0, depth);
            }
        },
        (ValueView::Dict(a), ValueView::Dict(b)) => {
            if a.len() == b.len() {
                lemma_entries_eq_extends(st, sorted_keys(a), a, b, 0, depth);
            }
        },
        _ => {},
    }
}

/// Taking an entry of a dictionary loses nothing.
pub proof fn lemma_entry_extends(st: State, dict: Map<Seq<char>, usize>, key: Seq<char>, depth: nat)
    ensures
        st.extends_to(entry_model(st, dict, key, depth).state),
    decreases depth, 4nat, 0nat,
{
    lemma_extends_reflexive(st);
    if dict.contains_key(key) {
        lemma_force_extends(st, dict[key], depth);
    } else {
        lemma_intern_extends(st.names, key);
    }
}

/// Taking an item of a collection loses nothing.
pub proof fn lemma_item_extends(st: State, collection: ValueView, index: ValueView, depth: nat)
    ensures
        st.extends_to(item_model(st, collection, index, depth).state),
    decreases depth, 5nat, 0nat,
{
    lemma_extends_reflexive(st);
    match collection {
        ValueView::Array(ids) => match index {
            ValueView::Number(n) => {
                if in_bounds(n, ids.len()) {
                    lemma_force_extends(st, ids[index_of(n).unwrap() as int], depth);
                }
            },
            _ => {},
        },
        ValueView::Dict(dict) => match index {
            ValueView::String(key) => {
                lemma_entry_extends(st, dict, key, depth);
            },
            _ => {},
        },
        _ => {},
    }
}

/// Taking a field of a value loses nothing.
pub proof fn lemma_field_of_extends(st: State, value: ValueView, name: Symbol, depth: nat)
    ensures
        st.extends_to(field_of_model(st, value, name, depth).state),
    decreases depth, 4nat, 0nat,
{
    lemma_extends_reflexive(st);
    match value {
        ValueView::Dict(dict) => {
            if name.0 < st.names.len() && dict.contains_key(st.names[name.0 as int]) {
                lemma_force_extends(st, dict[st.names[name.0 as int]], depth);
            }
        },
        _ => {},
    }
}

/// Evaluating two operands one after the other loses nothing.
proof fn lemma_operands_extend(
    st: State,
    env: Map<usize, usize>,
    left: Expr,
    right: Expr,
    depth: nat,
)
    ensures
        st.extends_to(eval_model(st, env, left, depth).state),
        st.extends_to(
            eval_model(eval_model(st, env, left, depth).state, env, right, depth).state,
        ),
    decreases depth, 1nat, 0nat,
{
    let l = eval_model(st, env, left, depth);
    lemma_eval_extends(st, env, left, depth);
    let r = eval_model(l.state, env, right, depth);
    lemma_eval_extends(l.state, env, right, depth);
    lemma_extends_transitive(st, l.state, r.state);
}

/// Evaluation loses nothing: the state after holds every thunk of the state
/// before, with the same expression and environment, and with the same
/// value where it had one; and every interned name at its place. No
/// environment is changed, and a thunk's value is written once.
pub proof fn lemma_eval_extends(st: State, env: Map<usize, usize>, expr: Expr, depth: nat)
    ensures
        st.extends_to(eval_model(st, env, expr, depth).state),
    decreases depth, 0nat, 0nat,
{
    lemma_extends_reflexive(st);
    if depth > 0 {
        let d = (depth - 1) as nat;
        match expr {
            Expr::Array(elements) => {
                lemma_allocate_extends(st, env, exprs_of(elements@));
            },
            Expr::Dict(pairs) => {
                lemma_allocate_extends(st, env, entry_exprs(pairs@));
            },
            Expr::Variable(name) => {
                if env.contains_key(name.0) {
                    lemma_force_extends(st, env[name.0], d);
                }
            },
            Expr::UnaryOp(op, operand) => {
                let ghost inner: Expr = *operand;
                lemma_eval_extends(st, env, inner, d);
            },
            Expr::BinaryOp(op, left, right) => {
                let ghost first: Expr = *left;
                let ghost second: Expr = *right;
                lemma_operands_extend(st, env, first, second, d);
                let l = eval_model(st, env, first, d);
                let r = eval_model(l.state, env, second, d);
                assert(eval_model(st, env, expr, depth) == binary_model(
                    st,
                    env,
                    op,
                    first,
                    second,
                    d,
                ));
                match op {
                    BinaryOp::Eq | BinaryOp::NotEq => {
                        assert(binary_model(st, env, op, first, second, d) == equality_op_model(
                            st,
                            env,
                            op == BinaryOp::NotEq,
                            first,
                            second,
                            d,
                        ));
                        if let Ok(a) = l.result {
                            if let Ok(b) = r.result {
                                let c = try_eq_model(r.state, a, b, d);
                                lemma_try_eq_extends(r.state, a, b, d);
                                lemma_extends_transitive(st, r.state, c.state);
                            }
                        }
                    },
                    BinaryOp::And | BinaryOp::Or => {
                        assert(binary_model(st, env, op, first, second, d) == logical_op_model(
                            st,
                            env,
                            op == BinaryOp::Or,
                            first,
                            second,
                            d,
                        ));
                    },
                    _ => {
                        assert(binary_model(st, env, op, first, second, d) == arithmetic_op_model(
                            st,
                            env,
                            op,
                            first,
                            second,
                            d,
                        ));
                    },
                }
            },
            Expr::If(cond, then, otherwise) => {
                let ghost first: Expr = *cond;
                let ghost second: Expr = *then;
                let ghost third: Expr = *otherwise;
                let c = eval_model(st, env, first, d);
                lemma_eval_extends(st, env, first, d);
                lemma_eval_extends(c.state, env, second, d);
                lemma_eval_extends(c.state, env, third, d);
                lemma_extends_transitive(st, c.state, eval_model(c.state, env, second, d).state);
                lemma_extends_transitive(st, c.state, eval_model(c.state, env, third, d).state);
            },
            Expr::Local(name, bound, body) => {
                let ghost first: Expr = *bound;
                let ghost second: Expr = *body;
                let inner = env.insert(name.0, st.cells.len() as usize);
                let next = st.allocate(Some(inner), first);
                lemma_allocate_extends(st, inner, Seq::empty());
                assert(st.extends_to(next));
                lemma_eval_extends(next, inner, second, d);
                lemma_extends_transitive(st, next, eval_model(next, inner, second, d).state);
            },
            Expr::FunctionCall(callee, args) => {
                let ghost first: Expr = *callee;
                let f = eval_model(st, env, first, d);
                lemma_eval_extends(st, env, first, d);
                if let Ok(ValueView::Closure(captured, params, body)) = f.result {
                    if exprs_of(args@).len() == params.len() {
                        let next = f.state.allocate_each(env, exprs_of(args@));
                        let inner = crate::semantics::bind_params(
                            captured,
                            params,
                            f.state.cells.len(),
                            params.len(),
                        );
                        lemma_allocate_extends(f.state, env, exprs_of(args@));
                        lemma_eval_extends(next, inner, body, d);
                        lemma_extends_transitive(st, f.state, next);
                        lemma_extends_transitive(st, next, eval_model(next, inner, body, d).state);
                    }
                }
            },
            Expr::FieldAccess(operand, name) => {
                let ghost first: Expr = *operand;
                let r = eval_model(st, env, first, d);
                lemma_eval_extends(st, env, first, d);
                if let Ok(value) = r.result {
                    lemma_field_of_extends(r.state, value, name, d);
                    lemma_extends_transitive(
                        st,
                        r.state,
                        field_of_model(r.state, value, name, d).state,
                    );
                }
            },
            Expr::IndexAccess(collection, index) => {
                let ghost first: Expr = *collection;
                let ghost second: Expr = *index;
                lemma_operands_extend(st, env, first, second, d);
                let c = eval_model(st, env, first, d);
                let i = eval_model(c.state, env, second, d);
                if let Ok(target) = c.result {
                    if let Ok(at) = i.result {
                        lemma_item_extends(i.state, target, at, d);
                        lemma_extends_transitive(
                            st,
                            i.state,
                            item_model(i.state, target, at, d).state,
                        );
                    }
                }
            },
            _ => {},
        }
    }
}

/// Serializing the items of an array loses nothing.
pub proof fn lemma_serialize_items_extends(
    st: State,
    ids: Seq<usize>,
    from: nat,
    before: Seq<JsonView>,
    depth: nat,
)
    ensures
        st.extends_to(serialize_items_model(st, ids, from, before, depth).state),
    decreases depth, 2nat, ids.len() - from,
{
    lemma_extends_reflexive(st);
    if from < ids.len() && depth > 0 {
        let d = (depth - 1) as nat;
        let forced = force_model(st, ids[from as int], d);
        lemma_force_extends(st, ids[from as int], d);
        if let Ok(value) = forced.result {
            let tree = serialize_model(forced.state, value, d);
            lemma_serialize_extends(forced.state, value, d);
            lemma_extends_transitive(st, forced.state, tree.state);
            if let Ok(json) = tree.result {
                let rest = serialize_items_model(tree.state, ids, from + 1, before.push(json), depth);
                lemma_serialize_items_extends(tree.state, ids, from + 1, before.push(json), depth);
                lemma_extends_transitive(st, tree.state, rest.state);
            }
        }
    }
}

/// Serializing the entries of a dictionary loses nothing.
pub proof fn lemma_serialize_entries_extends(
    st: State,
    keys: Seq<Seq<char>>,
    dict: Map<Seq<char>, usize>,
    from: nat,
    before: Seq<(Seq<char>, JsonView)>,
    depth: nat,
)
    ensures
        st.extends_to(serialize_entries_model(st, keys, dict, from, before, depth).state),
    decreases depth, 2nat, keys.len() - from,
{
    lemma_extends_reflexive(st);
    if from < keys.len() && depth > 0 {
        let d = (depth - 1) as nat;
        let key = keys[from as int];
        let forced = force_model(st, dict[key], d);
        lemma_force_extends(st, dict[key], d);
        if let Ok(value) = forced.result {
            let tree = serialize_model(forced.state, value, d);
            lemma_serialize_extends(forced.state, value, d);
            lemma_extends_transitive(st, forced.state, tree.state);
            if let Ok(json) = tree.result {
                let next = before.push((key, json));
                let rest = serialize_entries_model(tree.state, keys, dict, from + 1, next, depth);
                lemma_serialize_entries_extends(tree.state, keys, dict, from + 1, next, depth);
                lemma_extends_transitive(st, tree.state, rest.state);
            }
        }
    }
}

/// Serialization loses nothing: it forces thunks and changes nothing else.
pub proof fn lemma_serialize_extends(st: State, value: ValueView, depth: nat)
    ensures
        st.extends_to(serialize_model(st, value, depth).state),
    decreases depth, 3nat, 0nat,
{
    lemma_extends_reflexive(st);
    match value {
        ValueView::Array(ids) => {
            lemma_serialize_items_extends(st, ids, 0, Seq::empty(), depth);
        },
        ValueView::Dict(dict) => {
            lemma_serialize_entries_extends(st, sorted_keys(dict), dict, 0, Seq::empty(), depth);
        },
        _ => {},
    }
}

/// The expression is a literal: null, a truth value, a number or a string.
pub open spec fn is_literal(expr: Expr) -> bool {
    expr is Null || expr is Bool || expr is Number || expr is String
}

/// The value of a literal.
pub open spec fn literal_value(expr: Expr) -> ValueView {
    match expr {
        Expr::Bool(b) => ValueView::Bool(b),
        Expr::Number(n) => ValueView::Number(n.bits),
        Expr::String(text) => ValueView::String(text@),
        _ => ValueView::Null,
    }
}

/// A literal has the same value in every environment and under every depth
/// budget: it evaluates to itself, never fails, looks no binding up and
/// leaves the state as it is.
pub proof fn law_literal_ignores_environment(
    st: State,
    first: Map<usize, usize>,
    second: Map<usize, usize>,
    expr: Expr,
    depth: nat,
)
    requires
        is_literal(expr),
    ensures
        eval_model(st, first, expr, depth) == eval_model(st, second, expr, depth),
        eval_model(st, first, expr, depth) == done(literal_value(expr), st),
{
}

/// Collections are lazy: an array or dictionary literal evaluates to a
/// collection whatever its elements are, even where an element would fail,
/// and under every depth budget. No thunk is forced; every thunk that was
/// there is left as it was, and the new ones, one for each element in
/// order, hold the environment and that element and no value yet. An array
/// holds the new thunks in the order of its elements.
pub proof fn law_collections_are_lazy(st: State, env: Map<usize, usize>, expr: Expr, depth: nat)
    requires
        expr is Array || expr is Dict,
    ensures
        ({
            let r = eval_model(st, env, expr, depth);
            let elements = if expr is Array {
                exprs_of(expr->Array_0@)
            } else {
                entry_exprs(expr->Dict_0@)
            };
            &&& r.result.is_ok()
            &&& expr is Array ==> r.result->Ok_0 == ValueView::Array(
                fresh_ids(st.cells.len(), elements.len()),
            )
            &&& expr is Dict ==> r.result->Ok_0 is Dict
            &&& r.state.names == st.names
            &&& r.state.cells.len() == st.cells.len() + elements.len()
            &&& forall|i: int| 0 <= i < st.cells.len() ==> r.state.cells[i] == st.cells[i]
            &&& forall|i: int|
                0 <= i < elements.len() ==> (#[trigger] r.state.cells[st.cells.len() + i])
                    == (CellView { env: Some(env), expr: elements[i], memo: None })
        }),
{
}

/// Forcing a thunk that has no value yet is evaluating its expression in
/// its environment: the result of the force is the result of that
/// evaluation, and so is the state, but for what the thunk remembers: the
/// value, or nothing where the evaluation failed.
pub proof fn law_force_evaluates(st: State, id: usize, depth: nat)
    requires
        id < st.cells.len(),
        st.cells[id as int].memo.is_none(),
        st.cells[id as int].env.is_some(),
    ensures
        ({
            let cell = st.cells[id as int];
            let r = eval_model(st, cell.env->Some_0, cell.expr, depth);
            &&& force_model(st, id, depth).result == r.result
            &&& force_model(st, id, depth).state == r.state.with_memo(
                id as int,
                match r.result {
                    Ok(value) => Some(value),
                    Err(_) => None,
                },
            )
        }),
{
}

/// A failed force is tried again: a force that fails leaves the thunk
/// without a value and with its environment and expression, so that the
/// next force evaluates the expression again, in the state that the failure
/// left.
pub proof fn law_failed_force_is_retried(st: State, id: usize, depth: nat, again: nat)
    requires
        id < st.cells.len(),
        st.cells[id as int].memo.is_none(),
        st.cells[id as int].env.is_some(),
        force_model(st, id, depth).result.is_err(),
    ensures
        ({
            let failed = force_model(st, id, depth).state;
            let cell = st.cells[id as int];
            &&& failed.cells[id as int] == cell
            &&& force_model(failed, id, again).result == eval_model(
                failed,
                cell.env->Some_0,
                cell.expr,
                again,
            ).result
        }),
{
    let cell = st.cells[id as int];
    lemma_eval_extends(st, cell.env.unwrap(), cell.expr, depth);
}

/// An element of an array literal is evaluated when its thunk is forced,
/// and not before: forcing the thunk of element `i` of a new array has the
/// result of evaluating that element in the environment of the literal.
pub proof fn law_element_is_evaluated_when_forced(
    st: State,
    env: Map<usize, usize>,
    elements: Vec<Rc<Expr>>,
    i: int,
    depth: nat,
    budget: nat,
)
    requires
        0 <= i < elements@.len(),
        st.cells.len() + elements@.len() <= usize::MAX,
    ensures
        ({
            let made = eval_model(st, env, Expr::Array(elements), depth);
            let id = (st.cells.len() + i) as usize;
            &&& made.result == Ok::<ValueView, ErrorView>(
                ValueView::Array(fresh_ids(st.cells.len(), elements@.len())),
            )
            &&& fresh_ids(st.cells.len(), elements@.len())[i] == id
            &&& force_model(made.state, id, budget).result == eval_model(
                made.state,
                env,
                *elements@[i],
                budget,
            ).result
        }),
{
    let made = eval_model(st, env, Expr::Array(elements), depth);
    let id = (st.cells.len() + i) as usize;
    assert(made.state.cells[id as int] == (CellView {
        env: Some(env),
        expr: exprs_of(elements@)[i],
        memo: None,
    }));
}

/// Equality of values that are no collections is symmetric: the two orders
/// of the operands give the same answer, or the same failure, and force
/// nothing.
pub proof fn law_simple_equality_is_symmetric(
    st: State,
    left: ValueView,
    right: ValueView,
    depth: nat,
)
    requires
        !(left is Array) && !(left is Dict),
        !(right is Array) && !(right is Dict),
    ensures
        try_eq_model(st, left, right, depth) == try_eq_model(st, right, left, depth),
        try_eq_model(st, left, right, depth).state == st,
{
}

/// A thunk that has neither a value nor an environment is not forced: the
/// model marks the attempt, and no executable function admits it.
pub proof fn law_unbound_thunk_is_not_admitted(st: State, id: usize, depth: nat)
    requires
        st.cells[id as int].memo.is_none(),
        st.cells[id as int].env.is_none(),
    ensures
        force_model(st, id, depth) == fail::<ValueView>(ErrorView::EnvNotSet, st),
{
}

/// Forcing memoizes: once a thunk has been forced with success, every later
/// force of it, with whatever depth budget, gives the same value and leaves
/// the state untouched, so that nothing is evaluated again.
pub proof fn law_force_memoizes(st: State, id: usize, depth: nat, again: nat)
    requires
        id < st.cells.len(),
        force_model(st, id, depth).result.is_ok(),
    ensures
        force_model(force_model(st, id, depth).state, id, again) == done(
            force_model(st, id, depth).result->Ok_0,
            force_model(st, id, depth).state,
        ),
{
    let cell = st.cells[id as int];
    if cell.memo.is_none() && cell.env.is_some() {
        lemma_eval_extends(st, cell.env.unwrap(), cell.expr, depth);
    }
}

/// `&&` and `||` short-circuit: where the left operand of `&&` is false, or
/// that of `||` is true, the result is that truth value and the state is the
/// one that the left operand left, whatever the right operand is. The right
/// operand is not evaluated, even where it would fail.
pub proof fn law_short_circuit(
    st: State,
    env: Map<usize, usize>,
    op: BinaryOp,
    left: Rc<Expr>,
    right: Rc<Expr>,
    depth: nat,
)
    requires
        depth > 0,
        op == BinaryOp::And || op == BinaryOp::Or,
        eval_model(st, env, *left, (depth - 1) as nat).result == Ok::<ValueView, ErrorView>(
            ValueView::Bool(op == BinaryOp::Or),
        ),
    ensures
        eval_model(st, env, Expr::BinaryOp(op, left, right), depth) == done(
            ValueView::Bool(op == BinaryOp::Or),
            eval_model(st, env, *left, (depth - 1) as nat).state,
        ),
{
    let d = (depth - 1) as nat;
    let ghost first: Expr = *left;
    let ghost second: Expr = *right;
    assert(eval_model(st, env, Expr::BinaryOp(op, left, right), depth) == binary_model(
        st,
        env,
        op,
        first,
        second,
        d,
    ));
    assert(binary_model(st, env, op, first, second, d) == logical_op_model(
        st,
        env,
        op == BinaryOp::Or,
        first,
        second,
        d,
    ));
}

/// A closure called with more or fewer arguments than it has parameters
/// fails with `WrongNumberOfArguments`; no argument is deferred and the body
/// is not evaluated.
pub proof fn law_arity(
    st: State,
    env: Map<usize, usize>,
    callee: Rc<Expr>,
    args: Vec<Rc<Expr>>,
    depth: nat,
)
    requires
        depth > 0,
        eval_model(st, env, *callee, (depth - 1) as nat).result matches Ok(
            ValueView::Closure(_, params, _),
        ) && params.len() != args@.len(),
    ensures
        eval_model(st, env, Expr::FunctionCall(callee, args), depth) == fail::<ValueView>(
            ErrorView::WrongNumberOfArguments,
            eval_model(st, env, *callee, (depth - 1) as nat).state,
        ),
{
    let d = (depth - 1) as nat;
    let ghost first: Expr = *callee;
    assert(eval_model(st, env, Expr::FunctionCall(callee, args), depth) == call_model(
        st,
        env,
        first,
        exprs_of(args@),
        d,
    ));
}

/// What is called must be a closure: any other value fails with
/// `NotCallable`.
pub proof fn law_only_closures_are_called(
    st: State,
    env: Map<usize, usize>,
    callee: Rc<Expr>,
    args: Vec<Rc<Expr>>,
    depth: nat,
)
    requires
        depth > 0,
        eval_model(st, env, *callee, (depth - 1) as nat).result matches Ok(value) && !(
        value is Closure),
    ensures
        eval_model(st, env, Expr::FunctionCall(callee, args), depth) == fail::<ValueView>(
            ErrorView::NotCallable,
            eval_model(st, env, *callee, (depth - 1) as nat).state,
        ),
{
    let d = (depth - 1) as nat;
    let ghost first: Expr = *callee;
    assert(eval_model(st, env, Expr::FunctionCall(callee, args), depth) == call_model(
        st,
        env,
        first,
        exprs_of(args@),
        d,
    ));
}

/// A closure is never comparable, not even with itself: a comparison with
/// a closure on either side fails with `CannotCompare` and forces nothing.
pub proof fn law_closures_cannot_be_compared(
    st: State,
    left: ValueView,
    right: ValueView,
    depth: nat,
)
    requires
        left is Closure || right is Closure,
    ensures
        try_eq_model(st, left, right, depth) == fail::<bool>(ErrorView::CannotCompare, st),
{
}

/// Collections of different sizes differ, and no thunk is forced to find
/// that out.
pub proof fn law_sizes_decide_first(st: State, left: ValueView, right: ValueView, depth: nat)
    requires
        (left matches ValueView::Array(a) && right matches ValueView::Array(b) && a.len()
            != b.len()) || (left matches ValueView::Dict(a) && right matches ValueView::Dict(b)
            && a.len() != b.len()),
    ensures
        try_eq_model(st, left, right, depth) == done(false, st),
{
}

/// Values of different kinds, neither of them a closure, differ.
pub proof fn law_kinds_differ(st: State, left: ValueView, right: ValueView, depth: nat)
    requires
        left.erasure() != right.erasure(),
        !(left is Closure),
        !(right is Closure),
    ensures
        try_eq_model(st, left, right, depth) == done(false, st),
{
}

/// An index that truncates below zero, or is not below the length of the
/// array or string, fails with `IndexOutOfBounds`; nothing is forced.
pub proof fn law_index_out_of_bounds(st: State, collection: ValueView, number: u64, depth: nat)
    requires
        (collection matches ValueView::Array(ids) && !in_bounds(number, ids.len())) || (
        collection matches ValueView::String(text) && !in_bounds(number, text.len())),
    ensures
        item_model(st, collection, ValueView::Number(number), depth) == fail::<ValueView>(
            ErrorView::IndexOutOfBounds(reported_index(number)),
            st,
        ),
{
}

/// A negative index is out of bounds whatever the array or string holds:
/// a number that truncates below zero stands for no index.
pub proof fn law_negative_index_is_out_of_bounds(
    st: State,
    collection: ValueView,
    number: u64,
    depth: nat,
)
    requires
        collection is Array || collection is String,
        truncates_below_zero(number),
    ensures
        item_model(st, collection, ValueView::Number(number), depth) == fail::<ValueView>(
            ErrorView::IndexOutOfBounds(0),
            st,
        ),
{
}

/// A dictionary indexed by a string behaves as field access with the
/// symbol of that string: where the name is interned already, the two give
/// the same result.
pub proof fn law_index_by_key_is_field_access(
    st: State,
    dict: Map<Seq<char>, usize>,
    name: Symbol,
    depth: nat,
)
    requires
        st.names.no_duplicates(),
        name.0 < st.names.len(),
    ensures
        item_model(
            st,
            ValueView::Dict(dict),
            ValueView::String(st.names[name.0 as int]),
            depth,
        ) == field_of_model(st, ValueView::Dict(dict), name, depth),
{
    let key = st.names[name.0 as int];
    assert(item_model(st, ValueView::Dict(dict), ValueView::String(key), depth) == entry_model(
        st,
        dict,
        key,
        depth,
    ));
    if !dict.contains_key(key) {
        assert(st.names.contains(key));
        let found = st.names.index_of(key);
        assert(st.names[found] == key);
        assert(found == name.0);
        assert(intern_model(st.names, key) == (name.0, st.names));
        assert(st.with_names(st.names) == st);
    }
}

/// A closure has no JSON form.
pub proof fn law_closures_are_not_serialized(st: State, value: ValueView, depth: nat)
    requires
        value is Closure,
    ensures
        serialize_model(st, value, depth) == (Rendered::<JsonView> {
            result: Err(SerializeErrorView::Closure),
            state: st,
        }),
{
}

/// The members that serialization has made of a dictionary's entries are
/// the members made before, then one for each key from `from` on, in the
/// order of the keys.
pub proof fn lemma_members_follow_keys(
    st: State,
    keys: Seq<Seq<char>>,
    dict: Map<Seq<char>, usize>,
    from: nat,
    before: Seq<(Seq<char>, JsonView)>,
    depth: nat,
)
    requires
        from <= keys.len(),
        before.len() == from,
        forall|i: int| 0 <= i < from ==> (#[trigger] before[i]).0 == keys[i],
        serialize_entries_model(st, keys, dict, from, before, depth).result.is_ok(),
    ensures
        ({
            let members = serialize_entries_model(st, keys, dict, from, before, depth).result->Ok_0;
            &&& members.len() == keys.len()
            &&& forall|i: int| 0 <= i < keys.len() ==> (#[trigger] members[i]).0 == keys[i]
        }),
    decreases depth, 2nat, keys.len() - from,
{
    if from < keys.len() && depth > 0 {
        let d = (depth - 1) as nat;
        let key = keys[from as int];
        let forced = force_model(st, dict[key], d);
        if let Ok(value) = forced.result {
            let tree = serialize_model(forced.state, value, d);
            if let Ok(json) = tree.result {
                lemma_members_follow_keys(
                    tree.state,
                    keys,
                    dict,
                    from + 1,
                    before.push((key, json)),
                    depth,
                );
            }
        }
    }
}

/// Serialization is stable: the members of an object come one for each key
/// of the dictionary, in the ascending order of the keys, whatever order
/// the dictionary was built in.
pub proof fn law_object_members_ascend(st: State, dict: Map<Seq<char>, usize>, depth: nat)
    requires
        dict.dom().finite(),
        serialize_model(st, ValueView::Dict(dict), depth).result.is_ok(),
    ensures
        serialize_model(st, ValueView::Dict(dict), depth).result->Ok_0 is Object,
        ({
            let members = serialize_model(st, ValueView::Dict(dict), depth).result->Ok_0->Object_0;
            let keys = members.map_values(|member: (Seq<char>, JsonView)| member.0);
            &&& keys == sorted_keys(dict)
            &&& ascending(keys)
            &&& keys.to_set() == dict.dom()
        }),
{
    lemma_members_follow_keys(st, sorted_keys(dict), dict, 0, Seq::empty(), depth);
    lemma_sorted_keys_exist(dict);
    let members = serialize_model(st, ValueView::Dict(dict), depth).result->Ok_0->Object_0;
    let keys = members.map_values(|member: (Seq<char>, JsonView)| member.0);
    assert(keys =~= sorted_keys(dict));
}

/// A local binding may speak of itself: the body is evaluated in a state
/// with one new thunk, which defers the bound expression, and in the
/// environment that binds the name to that thunk; the thunk's own
/// environment is that same environment, so that the bound expression finds
/// its own name bound to itself.
pub proof fn law_local_binds_itself(
    st: State,
    env: Map<usize, usize>,
    name: Symbol,
    bound: Rc<Expr>,
    body: Rc<Expr>,
    depth: nat,
)
    requires
        depth > 0,
        st.cells.len() <= usize::MAX,
    ensures
        ({
            let id = st.cells.len() as usize;
            let inner = env.insert(name.0, id);
            let next = st.allocate(Some(inner), *bound);
            &&& eval_model(st, env, Expr::Local(name, bound, body), depth) == eval_model(
                next,
                inner,
                *body,
                (depth - 1) as nat,
            )
            &&& next.cells[id as int].env == Some(inner)
            &&& next.cells[id as int].expr == *bound
            &&& inner[name.0] == id
        }),
{
    let ghost first: Expr = *bound;
    let ghost second: Expr = *body;
    assert(eval_model(st, env, Expr::Local(name, bound, body), depth) == local_model(
        st,
        env,
        name,
        first,
        second,
        (depth - 1) as nat,
    ));
}

/// An inner binding shadows an outer one of the same name: in
/// `local x = a; local x = b; x` the variable is the thunk of `b`, not that
/// of `a`, which is never forced.
pub proof fn law_inner_binding_shadows(
    st: State,
    env: Map<usize, usize>,
    name: Symbol,
    outer: Rc<Expr>,
    inner: Rc<Expr>,
    depth: nat,
)
    requires
        depth >= 3,
        st.cells.len() + 1 <= usize::MAX,
    ensures
        ({
            let first = st.cells.len() as usize;
            let second = (st.cells.len() + 1) as usize;
            let env1 = env.insert(name.0, first);
            let env2 = env1.insert(name.0, second);
            let next = st.allocate(Some(env1), *outer).allocate(Some(env2), *inner);
            eval_model(
                st,
                env,
                Expr::Local(
                    name,
                    outer,
                    Rc::new(Expr::Local(name, inner, Rc::new(Expr::Variable(name)))),
                ),
                depth,
            ) == force_model(next, second, (depth - 3) as nat)
        }),
{
    let ghost a: Expr = *outer;
    let ghost b: Expr = *inner;
    let first = st.cells.len() as usize;
    let second = (st.cells.len() + 1) as usize;
    let env1 = env.insert(name.0, first);
    let env2 = env1.insert(name.0, second);
    let st1 = st.allocate(Some(env1), a);
    let st2 = st1.allocate(Some(env2), b);
    let variable = Expr::Variable(name);
    let nested = Expr::Local(name, inner, Rc::new(variable));
    let d1 = (depth - 1) as nat;
    let d2 = (depth - 2) as nat;
    let d3 = (depth - 3) as nat;
    assert(eval_model(st, env, Expr::Local(name, outer, Rc::new(nested)), depth) == local_model(
        st,
        env,
        name,
        a,
        nested,
        d1,
    ));
    assert(local_model(st, env, name, a, nested, d1) == eval_model(st1, env1, nested, d1));
    assert(eval_model(st1, env1, nested, d1) == local_model(st1, env1, name, b, variable, d2));
    assert(local_model(st1, env1, name, b, variable, d2) == eval_model(st2, env2, variable, d2));
    assert(eval_model(st2, env2, variable, d2) == variable_model(st2, env2, name, d3));
}

} // verus!
