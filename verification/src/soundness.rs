//! The invariant of the model: evaluation, comparison and serialization
//! keep a state consistent. From a state in which every thunk has its
//! environment and names only thunks that exist, they lead to such a state,
//! give a value that names only thunks that exist, and never fail for want
//! of an environment.

use crate::ast::{BinaryOp, Expr};
use crate::json::{
    env_not_set, serialize_entries_model, serialize_items_model, serialize_model, JsonView, Rendered,
};
use crate::laws::{
    lemma_entries_eq_extends, lemma_eval_extends, lemma_field_of_extends, lemma_force_extends,
    lemma_item_extends, lemma_items_eq_extends, lemma_serialize_entries_extends,
    lemma_serialize_extends, lemma_serialize_items_extends, lemma_try_eq_extends,
};
use crate::number::index_of;
use crate::order::{lemma_sorted_keys_exist, sorted_keys};
use crate::semantics::{
    arithmetic_op_model, binary_model, bind_params, entries_eq_model, entry_exprs, entry_keys,
    entry_model, equality_op_model, eval_model, exprs_of, field_of_model, force_model, fresh_ids,
    in_bounds, item_model, items_eq_model, lemma_allocate_each_wf, lemma_bind_keys_fits,
    lemma_bind_params_fits, lemma_env_fits_later, lemma_value_fits_later, logical_op_model,
    truth_operand, try_eq_model, ErrorView, Outcome, State, ValueView,
};
use crate::symbol::{intern_model, Symbol};
use vstd::prelude::*;

verus! {

/// The thunks of the state can be numbered by machine integers.
pub open spec fn bounded(st: State) -> bool {
    st.cells.len() <= usize::MAX
}

/// The outcome is sound: its state is ready, and it is not the failure
/// `EnvNotSet`.
pub open spec fn sound<T>(outcome: Outcome<T>) -> bool {
    &&& outcome.state.ready()
    &&& outcome.result != Err::<T, ErrorView>(ErrorView::EnvNotSet)
}

/// The outcome is sound, and its value names only thunks that exist.
pub open spec fn sound_value(outcome: Outcome<ValueView>) -> bool {
    &&& sound(outcome)
    &&& outcome.result matches Ok(value) ==> outcome.state.value_fits(value)
}

/// A ready state stays ready where a thunk is made to remember a value
/// that fits, or nothing.
proof fn lemma_with_memo_ready(st: State, id: int, memo: Option<ValueView>)
    requires
        st.ready(),
        memo matches Some(value) ==> st.value_fits(value),
    ensures
        st.with_memo(id, memo).ready(),
        memo matches Some(value) ==> st.with_memo(id, memo).value_fits(value),
{
    let after = st.with_memo(id, memo);
    assert forall|i: int| 0 <= i < after.cells.len() implies after.cell_fits(
        #[trigger] after.cells[i],
    ) && after.cells[i].env.is_some() by {
        assert(st.cell_fits(st.cells[i]));
    }
}

/// Forcing keeps a ready state ready.
pub proof fn lemma_force_sound(st: State, id: usize, depth: nat)
    requires
        st.ready(),
        id < st.cells.len(),
        bounded(force_model(st, id, depth).state),
    ensures
        sound_value(force_model(st, id, depth)),
    decreases depth, 1nat, 0nat,
{
    let cell = st.cells[id as int];
    assert(st.cell_fits(cell));
    if cell.memo.is_none() {
        let env = cell.env.unwrap();
        let r = eval_model(st, env, cell.expr, depth);
        lemma_eval_extends(st, env, cell.expr, depth);
        lemma_eval_sound(st, env, cell.expr, depth);
        match r.result {
            Ok(value) => lemma_with_memo_ready(r.state, id as int, Some(value)),
            Err(_) => lemma_with_memo_ready(r.state, id as int, None),
        }
    }
}

/// Comparing items keeps a ready state ready.
pub proof fn lemma_items_eq_sound(
    st: State,
    left: Seq<usize>,
    right: Seq<usize>,
    from: nat,
    depth: nat,
)
    requires
        st.ready(),
        st.items_fit(left),
        st.items_fit(right),
        left.len() == right.len(),
        bounded(items_eq_model(st, left, right, from, depth).state),
    ensures
        sound(items_eq_model(st, left, right, from, depth)),
    decreases depth, 2nat, left.len() - from,
{
    if from < left.len() && depth > 0 {
        let d = (depth - 1) as nat;
        let a = force_model(st, left[from as int], d);
        lemma_force_extends(st, left[from as int], d);
        if let Ok(x) = a.result {
            let b = force_model(a.state, right[from as int], d);
            lemma_force_extends(a.state, right[from as int], d);
            if let Ok(y) = b.result {
                let c = try_eq_model(b.state, x, y, d);
                lemma_try_eq_extends(b.state, x, y, d);
                if c.result == Ok::<bool, ErrorView>(true) {
                    lemma_items_eq_extends(c.state, left, right, from + 1, depth);
                }
                lemma_force_sound(st, left[from as int], d);
                lemma_force_sound(a.state, right[from as int], d);
                lemma_value_fits_later(a.state, b.state, x);
                lemma_try_eq_sound(b.state, x, y, d);
                if c.result == Ok::<bool, ErrorView>(true) {
                    lemma_items_eq_sound(c.state, left, right, from + 1, depth);
                }
            } else {
                lemma_force_sound(st, left[from as int], d);
                lemma_force_sound(a.state, right[from as int], d);
            }
        } else {
            lemma_force_sound(st, left[from as int], d);
        }
    }
}

/// Comparing entries keeps a ready state ready.
pub proof fn lemma_entries_eq_sound(
    st: State,
    keys: Seq<Seq<char>>,
    left: Map<Seq<char>, usize>,
    right: Map<Seq<char>, usize>,
    from: nat,
    depth: nat,
)
    requires
        st.ready(),
        st.entries_fit(left),
        st.entries_fit(right),
        forall|i: int| 0 <= i < keys.len() ==> left.contains_key(#[trigger] keys[i]),
        bounded(entries_eq_model(st, keys, left, right, from, depth).state),
    ensures
        sound(entries_eq_model(st, keys, left, right, from, depth)),
    decreases depth, 2nat, keys.len() - from,
{
    if from < keys.len() && right.contains_key(keys[from as int]) && depth > 0 {
        let d = (depth - 1) as nat;
        let key = keys[from as int];
        assert(left.contains_key(key));
        let a = force_model(st, left[key], d);
        lemma_force_extends(st, left[key], d);
        if let Ok(x) = a.result {
            let b = force_model(a.state, right[key], d);
            lemma_force_extends(a.state, right[key], d);
            if let Ok(y) = b.result {
                let c = try_eq_model(b.state, x, y, d);
                lemma_try_eq_extends(b.state, x, y, d);
                if c.result == Ok::<bool, ErrorView>(true) {
                    lemma_entries_eq_extends(c.state, keys, left, right, from + 1, depth);
                }
                lemma_force_sound(st, left[key], d);
                lemma_force_sound(a.state, right[key], d);
                lemma_value_fits_later(a.state, b.state, x);
                lemma_try_eq_sound(b.state, x, y, d);
                if c.result == Ok::<bool, ErrorView>(true) {
                    lemma_entries_eq_sound(c.state, keys, left, right, from + 1, depth);
                }
            } else {
                lemma_force_sound(st, left[key], d);
                lemma_force_sound(a.state, right[key], d);
            }
        } else {
            lemma_force_sound(st, left[key], d);
        }
    }
}

/// Comparing keeps a ready state ready.
pub proof fn lemma_try_eq_sound(st: State, left: ValueView, right: ValueView, depth: nat)
    requires
        st.ready(),
        st.value_fits(left),
        st.value_fits(right),
        bounded(try_eq_model(st, left, right, depth).state),
    ensures
        sound(try_eq_model(st, left, right, depth)),
    decreases depth, 3nat, 0nat,
{
    match (left, right) {
        (ValueView::Array(a), ValueView::Array(b)) => {
            if a.len() == b.len() {
                lemma_items_eq_sound(st, a, b, 0, depth);
            }
        },
        (ValueView::Dict(a), ValueView::Dict(b)) => {
            if a.len() == b.len() {
                lemma_sorted_keys_exist(a);
                let keys = sorted_keys(a);
                assert forall|i: int| 0 <= i < keys.len() implies a.contains_key(
                    #[trigger] keys[i],
                ) by {
                    assert(keys.to_set().contains(keys[i]));
                }
                lemma_entries_eq_sound(st, keys, a, b, 0, depth);
            }
        },
        _ => {},
    }
}

/// Taking an entry keeps a ready state ready.
pub proof fn lemma_entry_sound(st: State, dict: Map<Seq<char>, usize>, key: Seq<char>, depth: nat)
    requires
        st.ready(),
        st.entries_fit(dict),
        bounded(entry_model(st, dict, key, depth).state),
    ensures
        sound_value(entry_model(st, dict, key, depth)),
    decreases depth, 4nat, 0nat,
{
    if dict.contains_key(key) {
        lemma_force_sound(st, dict[key], depth);
    } else {
        let names = intern_model(st.names, key).1;
        let after = st.with_names(names);
        assert(names.no_duplicates()) by {
            if !st.names.contains(key) {
                assert forall|i: int, j: int|
                    0 <= i < names.len() && 0 <= j < names.len() && i != j implies names[i]
                    != names[j] by {
                    if i < st.names.len() && j < st.names.len() {
                    } else if i < st.names.len() {
                        assert(st.names[i] != key);
                    } else {
                        assert(st.names[j] != key);
                    }
                }
            }
        }
        assert forall|i: int| 0 <= i < after.cells.len() implies after.cell_fits(
            #[trigger] after.cells[i],
        ) && after.cells[i].env.is_some() by {
            assert(st.cell_fits(st.cells[i]));
        }
    }
}

/// Taking a field keeps a ready state ready.
pub proof fn lemma_field_of_sound(st: State, value: ValueView, name: Symbol, depth: nat)
    requires
        st.ready(),
        st.value_fits(value),
        bounded(field_of_model(st, value, name, depth).state),
    ensures
        sound_value(field_of_model(st, value, name, depth)),
    decreases depth, 4nat, 0nat,
{
    match value {
        ValueView::Dict(dict) => {
            if name.0 < st.names.len() && dict.contains_key(st.names[name.0 as int]) {
                lemma_force_sound(st, dict[st.names[name.0 as int]], depth);
            }
        },
        _ => {},
    }
}

/// Taking an item keeps a ready state ready.
pub proof fn lemma_item_sound(st: State, collection: ValueView, index: ValueView, depth: nat)
    requires
        st.ready(),
        st.value_fits(collection),
        bounded(item_model(st, collection, index, depth).state),
    ensures
        sound_value(item_model(st, collection, index, depth)),
    decreases depth, 5nat, 0nat,
{
    match collection {
        ValueView::Array(ids) => match index {
            ValueView::Number(n) => {
                if in_bounds(n, ids.len()) {
                    lemma_force_sound(st, ids[index_of(n).unwrap() as int], depth);
                }
            },
            _ => {},
        },
        ValueView::Dict(dict) => match index {
            ValueView::String(key) => {
                lemma_entry_sound(st, dict, key, depth);
            },
            _ => {},
        },
        _ => {},
    }
}

/// A binary operator keeps a ready state ready.
proof fn lemma_binary_sound(
    st: State,
    env: Map<usize, usize>,
    op: BinaryOp,
    left: Expr,
    right: Expr,
    depth: nat,
)
    requires
        st.ready(),
        st.env_fits(env),
        bounded(binary_model(st, env, op, left, right, depth).state),
    ensures
        sound_value(binary_model(st, env, op, left, right, depth)),
    decreases depth, 5nat, 0nat,
{
    let l = eval_model(st, env, left, depth);
    lemma_eval_extends(st, env, left, depth);
    let r = eval_model(l.state, env, right, depth);
    lemma_eval_extends(l.state, env, right, depth);
    match op {
        BinaryOp::Eq | BinaryOp::NotEq => {
            assert(binary_model(st, env, op, left, right, depth) == equality_op_model(
                st,
                env,
                op == BinaryOp::NotEq,
                left,
                right,
                depth,
            ));
            if let Ok(a) = l.result {
                if let Ok(b) = r.result {
                    lemma_try_eq_extends(r.state, a, b, depth);
                    lemma_eval_sound(st, env, left, depth);
                    lemma_env_fits_later(st, l.state, env);
                    lemma_eval_sound(l.state, env, right, depth);
                    lemma_value_fits_later(l.state, r.state, a);
                    lemma_try_eq_sound(r.state, a, b, depth);
                } else {
                    lemma_eval_sound(st, env, left, depth);
                    lemma_env_fits_later(st, l.state, env);
                    lemma_eval_sound(l.state, env, right, depth);
                }
            } else {
                lemma_eval_sound(st, env, left, depth);
            }
        },
        BinaryOp::And | BinaryOp::Or => {
            assert(binary_model(st, env, op, left, right, depth) == logical_op_model(
                st,
                env,
                op == BinaryOp::Or,
                left,
                right,
                depth,
            ));
            if let Ok(a) = l.result {
                if truth_operand(a) == Ok::<bool, ErrorView>(op != BinaryOp::Or) {
                    lemma_eval_sound(st, env, left, depth);
                    lemma_env_fits_later(st, l.state, env);
                    lemma_eval_sound(l.state, env, right, depth);
                } else {
                    lemma_eval_sound(st, env, left, depth);
                }
            } else {
                lemma_eval_sound(st, env, left, depth);
            }
        },
        _ => {
            assert(binary_model(st, env, op, left, right, depth) == arithmetic_op_model(
                st,
                env,
                op,
                left,
                right,
                depth,
            ));
            if l.result.is_ok() {
                lemma_eval_sound(st, env, left, depth);
                lemma_env_fits_later(st, l.state, env);
                lemma_eval_sound(l.state, env, right, depth);
            } else {
                lemma_eval_sound(st, env, left, depth);
            }
        },
    }
}

/// Evaluation keeps a ready state ready: from a state in which every thunk
/// has its environment and names only thunks that exist, and in an
/// environment that names only thunks that exist, evaluation leads to such
/// a state, gives a value that names only thunks that exist, and does not
/// fail with `EnvNotSet`. (The thunks of the last state must not be more
/// than machine integers can number.)
pub proof fn lemma_eval_sound(st: State, env: Map<usize, usize>, expr: Expr, depth: nat)
    requires
        st.ready(),
        st.env_fits(env),
        bounded(eval_model(st, env, expr, depth).state),
    ensures
        sound_value(eval_model(st, env, expr, depth)),
    decreases depth, 0nat, 0nat,
{
    match expr {
        Expr::Array(elements) => {
            let exprs = exprs_of(elements@);
            lemma_allocate_each_wf(st, env, exprs);
            let after = st.allocate_each(env, exprs);
            let ids = fresh_ids(st.cells.len(), exprs.len());
            assert(after.items_fit(ids));
        },
        Expr::Dict(pairs) => {
            let exprs = entry_exprs(pairs@);
            lemma_allocate_each_wf(st, env, exprs);
            lemma_bind_keys_fits(entry_keys(pairs@), st.cells.len(), pairs@.len());
        },
        _ => {},
    }
    if depth > 0 {
        let d = (depth - 1) as nat;
        match expr {
            Expr::Variable(name) => {
                if env.contains_key(name.0) {
                    lemma_force_sound(st, env[name.0], d);
                }
            },
            Expr::UnaryOp(op, operand) => {
                let ghost inner: Expr = *operand;
                lemma_eval_sound(st, env, inner, d);
            },
            Expr::BinaryOp(op, left, right) => {
                let ghost first: Expr = *left;
                let ghost second: Expr = *right;
                lemma_binary_sound(st, env, op, first, second, d);
            },
            Expr::If(cond, then, otherwise) => {
                let ghost first: Expr = *cond;
                let ghost second: Expr = *then;
                let ghost third: Expr = *otherwise;
                let c = eval_model(st, env, first, d);
                lemma_eval_extends(st, env, first, d);
                if let Ok(ValueView::Bool(b)) = c.result {
                    if b {
                        lemma_eval_extends(c.state, env, second, d);
                    } else {
                        lemma_eval_extends(c.state, env, third, d);
                    }
                    lemma_eval_sound(st, env, first, d);
                    lemma_env_fits_later(st, c.state, env);
                    if b {
                        lemma_eval_sound(c.state, env, second, d);
                    } else {
                        lemma_eval_sound(c.state, env, third, d);
                    }
                } else {
                    lemma_eval_sound(st, env, first, d);
                }
            },
            Expr::Local(name, bound, body) => {
                let ghost first: Expr = *bound;
                let ghost second: Expr = *body;
                let inner = env.insert(name.0, st.cells.len() as usize);
                let next = st.allocate(Some(inner), first);
                lemma_eval_extends(next, inner, second, d);
                assert(next.env_fits(inner));
                assert forall|i: int| 0 <= i < next.cells.len() implies next.cell_fits(
                    #[trigger] next.cells[i],
                ) && next.cells[i].env.is_some() by {
                    if i < st.cells.len() {
                        assert(st.cell_fits(st.cells[i]));
                    }
                }
                lemma_eval_sound(next, inner, second, d);
            },
            Expr::FunctionCall(callee, args) => {
                let ghost first: Expr = *callee;
                let f = eval_model(st, env, first, d);
                lemma_eval_extends(st, env, first, d);
                if let Ok(ValueView::Closure(captured, params, body)) = f.result {
                    if exprs_of(args@).len() == params.len() {
                        let next = f.state.allocate_each(env, exprs_of(args@));
                        let inner = bind_params(
                            captured,
                            params,
                            f.state.cells.len(),
                            params.len(),
                        );
                        lemma_eval_extends(next, inner, body, d);
                        lemma_eval_sound(st, env, first, d);
                        lemma_env_fits_later(st, f.state, env);
                        lemma_allocate_each_wf(f.state, env, exprs_of(args@));
                        lemma_env_fits_later(f.state, next, captured);
                        lemma_bind_params_fits(
                            next,
                            captured,
                            params,
                            f.state.cells.len(),
                            params.len(),
                        );
                        lemma_eval_sound(next, inner, body, d);
                    } else {
                        lemma_eval_sound(st, env, first, d);
                    }
                } else {
                    lemma_eval_sound(st, env, first, d);
                }
            },
            Expr::FieldAccess(operand, name) => {
                let ghost first: Expr = *operand;
                let r = eval_model(st, env, first, d);
                lemma_eval_extends(st, env, first, d);
                if let Ok(value) = r.result {
                    lemma_field_of_extends(r.state, value, name, d);
                    lemma_eval_sound(st, env, first, d);
                    lemma_field_of_sound(r.state, value, name, d);
                } else {
                    lemma_eval_sound(st, env, first, d);
                }
            },
            Expr::IndexAccess(collection, index) => {
                let ghost first: Expr = *collection;
                let ghost second: Expr = *index;
                let c = eval_model(st, env, first, d);
                lemma_eval_extends(st, env, first, d);
                if let Ok(target) = c.result {
                    let i = eval_model(c.state, env, second, d);
                    lemma_eval_extends(c.state, env, second, d);
                    if let Ok(at) = i.result {
                        lemma_item_extends(i.state, target, at, d);
                        lemma_eval_sound(st, env, first, d);
                        lemma_env_fits_later(st, c.state, env);
                        lemma_eval_sound(c.state, env, second, d);
                        lemma_value_fits_later(c.state, i.state, target);
                        lemma_item_sound(i.state, target, at, d);
                    } else {
                        lemma_eval_sound(st, env, first, d);
                        lemma_env_fits_later(st, c.state, env);
                        lemma_eval_sound(c.state, env, second, d);
                    }
                } else {
                    lemma_eval_sound(st, env, first, d);
                }
            },
            _ => {},
        }
    }
}

/// The serialization is sound: its state is ready, and it did not fail
/// for want of an environment.
pub open spec fn rendered_sound<T>(outcome: Rendered<T>) -> bool {
    &&& outcome.state.ready()
    &&& !env_not_set(outcome.result)
}

/// Serializing items keeps a ready state ready.
pub proof fn lemma_serialize_items_sound(
    st: State,
    ids: Seq<usize>,
    from: nat,
    before: Seq<JsonView>,
    depth: nat,
)
    requires
        st.ready(),
        st.items_fit(ids),
        bounded(serialize_items_model(st, ids, from, before, depth).state),
    ensures
        rendered_sound(serialize_items_model(st, ids, from, before, depth)),
    decreases depth, 2nat, ids.len() - from,
{
    if from < ids.len() && depth > 0 {
        let d = (depth - 1) as nat;
        let forced = force_model(st, ids[from as int], d);
        lemma_force_extends(st, ids[from as int], d);
        if let Ok(value) = forced.result {
            let tree = serialize_model(forced.state, value, d);
            lemma_serialize_extends(forced.state, value, d);
            if let Ok(json) = tree.result {
                lemma_serialize_items_extends(tree.state, ids, from + 1, before.push(json), depth);
            }
            lemma_force_sound(st, ids[from as int], d);
            lemma_serialize_sound(forced.state, value, d);
            if let Ok(json) = tree.result {
                lemma_serialize_items_sound(tree.state, ids, from + 1, before.push(json), depth);
            }
        } else {
            lemma_force_sound(st, ids[from as int], d);
        }
    }
}

/// Serializing entries keeps a ready state ready.
pub proof fn lemma_serialize_entries_sound(
    st: State,
    keys: Seq<Seq<char>>,
    dict: Map<Seq<char>, usize>,
    from: nat,
    before: Seq<(Seq<char>, JsonView)>,
    depth: nat,
)
    requires
        st.ready(),
        st.entries_fit(dict),
        forall|i: int| 0 <= i < keys.len() ==> dict.contains_key(#[trigger] keys[i]),
        bounded(serialize_entries_model(st, keys, dict, from, before, depth).state),
    ensures
        rendered_sound(serialize_entries_model(st, keys, dict, from, before, depth)),
    decreases depth, 2nat, keys.len() - from,
{
    if from < keys.len() && depth > 0 {
        let d = (depth - 1) as nat;
        let key = keys[from as int];
        assert(dict.contains_key(key));
        let forced = force_model(st, dict[key], d);
        lemma_force_extends(st, dict[key], d);
        if let Ok(value) = forced.result {
            let tree = serialize_model(forced.state, value, d);
            lemma_serialize_extends(forced.state, value, d);
            if let Ok(json) = tree.result {
                let next = before.push((key, json));
                lemma_serialize_entries_extends(tree.state, keys, dict, from + 1, next, depth);
            }
            lemma_force_sound(st, dict[key], d);
            lemma_serialize_sound(forced.state, value, d);
            if let Ok(json) = tree.result {
                let next = before.push((key, json));
                lemma_serialize_entries_sound(tree.state, keys, dict, from + 1, next, depth);
            }
        } else {
            lemma_force_sound(st, dict[key], d);
        }
    }
}

/// Serialization keeps a ready state ready and does not fail with
/// `EnvNotSet`.
pub proof fn lemma_serialize_sound(st: State, value: ValueView, depth: nat)
    requires
        st.ready(),
        st.value_fits(value),
        bounded(serialize_model(st, value, depth).state),
    ensures
        rendered_sound(serialize_model(st, value, depth)),
    decreases depth, 3nat, 0nat,
{
    match value {
        ValueView::Array(ids) => {
            lemma_serialize_items_sound(st, ids, 0, Seq::empty(), depth);
        },
        ValueView::Dict(dict) => {
            lemma_sorted_keys_exist(dict);
            let keys = sorted_keys(dict);
            assert forall|i: int| 0 <= i < keys.len() implies dict.contains_key(
                #[trigger] keys[i],
            ) by {
                assert(keys.to_set().contains(keys[i]));
            }
            lemma_serialize_entries_sound(st, keys, dict, 0, Seq::empty(), depth);
        },
        _ => {},
    }
}

} // verus!
