//! The depth budget is a limit on resources and nothing else: a result
//! that is not the exhaustion of the budget is the result under every
//! larger budget.

use crate::ast::{BinaryOp, Expr};
use crate::json::{
    serialize_entries_model, serialize_items_model, serialize_model, JsonView, Rendered,
    SerializeErrorView,
};
use crate::number::index_of;
use crate::order::sorted_keys;
use crate::semantics::{
    arithmetic_op_model, binary_model, bind_params, entries_eq_model, entry_model,
    equality_op_model, eval_model, exprs_of, field_of_model, force_model, in_bounds, item_model,
    items_eq_model, logical_op_model, truth_operand, try_eq_model, ErrorView, Outcome, State,
    ValueView,
};
use crate::symbol::Symbol;
use vstd::prelude::*;

verus! {

/// The outcome is something else than the exhaustion of the depth budget.
pub open spec fn settled<T>(outcome: Outcome<T>) -> bool {
    outcome.result != Err::<T, ErrorView>(ErrorView::DepthExhausted)
}

/// A force that settles within a budget settles alike within a larger
/// one.
pub proof fn lemma_force_settled(st: State, id: usize, depth: nat, more: nat)
    requires
        depth <= more,
        settled(force_model(st, id, depth)),
    ensures
        force_model(st, id, more) == force_model(st, id, depth),
    decreases depth, 1nat, 0nat,
{
    let cell = st.cells[id as int];
    if cell.memo.is_none() && cell.env.is_some() {
        lemma_eval_settled(st, cell.env.unwrap(), cell.expr, depth, more);
    }
}

/// A comparison of items that settles within a budget settles alike
/// within a larger one.
pub proof fn lemma_items_eq_settled(
    st: State,
    left: Seq<usize>,
    right: Seq<usize>,
    from: nat,
    depth: nat,
    more: nat,
)
    requires
        depth <= more,
        settled(items_eq_model(st, left, right, from, depth)),
    ensures
        items_eq_model(st, left, right, from, more) == items_eq_model(st, left, right, from, depth),
    decreases depth, 2nat, left.len() - from,
{
    if from < left.len() {
        assert(depth > 0);
        let d = (depth - 1) as nat;
        let m = (more - 1) as nat;
        let a = force_model(st, left[from as int], d);
        lemma_force_settled(st, left[from as int], d, m);
        if let Ok(x) = a.result {
            let b = force_model(a.state, right[from as int], d);
            lemma_force_settled(a.state, right[from as int], d, m);
            if let Ok(y) = b.result {
                let c = try_eq_model(b.state, x, y, d);
                lemma_try_eq_settled(b.state, x, y, d, m);
                if c.result == Ok::<bool, ErrorView>(true) {
                    lemma_items_eq_settled(c.state, left, right, from + 1, depth, more);
                }
            }
        }
    }
}

/// A comparison of entries that settles within a budget settles alike
/// within a larger one.
pub proof fn lemma_entries_eq_settled(
    st: State,
    keys: Seq<Seq<char>>,
    left: Map<Seq<char>, usize>,
    right: Map<Seq<char>, usize>,
    from: nat,
    depth: nat,
    more: nat,
)
    requires
        depth <= more,
        settled(entries_eq_model(st, keys, left, right, from, depth)),
    ensures
        entries_eq_model(st, keys, left, right, from, more) == entries_eq_model(
            st,
            keys,
            left,
            right,
            from,
            depth,
        ),
    decreases depth, 2nat, keys.len() - from,
{
    if from < keys.len() && right.contains_key(keys[from as int]) {
        assert(depth > 0);
        let d = (depth - 1) as nat;
        let m = (more - 1) as nat;
        let key = keys[from as int];
        let a = force_model(st, left[key], d);
        lemma_force_settled(st, left[key], d, m);
        if let Ok(x) = a.result {
            let b = force_model(a.state, right[key], d);
            lemma_force_settled(a.state, right[key], d, m);
            if let Ok(y) = b.result {
                let c = try_eq_model(b.state, x, y, d);
                lemma_try_eq_settled(b.state, x, y, d, m);
                if c.result == Ok::<bool, ErrorView>(true) {
                    lemma_entries_eq_settled(c.state, keys, left, right, from + 1, depth, more);
                }
            }
        }
    }
}

/// A comparison that settles within a budget settles alike within a
/// larger one.
pub proof fn lemma_try_eq_settled(
    st: State,
    left: ValueView,
    right: ValueView,
    depth: nat,
    more: nat,
)
    requires
        depth <= more,
        settled(try_eq_model(st, left, right, depth)),
    ensures
        try_eq_model(st, left, right, more) == try_eq_model(st, left, right, depth),
    decreases depth, 3nat, 0nat,
{
    match (left, right) {
        (ValueView::Array(a), ValueView::Array(b)) => {
            if a.len() == b.len() {
                lemma_items_eq_settled(st, a, b, 0, depth, more);
            }
        },
        (ValueView::Dict(a), ValueView::Dict(b)) => {
            if a.len() == b.len() {
                lemma_entries_eq_settled(st, sorted_keys(a), a, b, 0, depth, more);
            }
        },
        _ => {},
    }
}

/// Taking an entry settles alike within a larger budget.
pub proof fn lemma_entry_settled(
    st: State,
    dict: Map<Seq<char>, usize>,
    key: Seq<char>,
    depth: nat,
    more: nat,
)
    requires
        depth <= more,
        settled(entry_model(st, dict, key, depth)),
    ensures
        entry_model(st, dict, key, more) == entry_model(st, dict, key, depth),
    decreases depth, 4nat, 0nat,
{
    if dict.contains_key(key) {
        lemma_force_settled(st, dict[key], depth, more);
    }
}

/// Taking a field settles alike within a larger budget.
pub proof fn lemma_field_of_settled(
    st: State,
    value: ValueView,
    name: Symbol,
    depth: nat,
    more: nat,
)
    requires
        depth <= more,
        settled(field_of_model(st, value, name, depth)),
    ensures
        field_of_model(st, value, name, more) == field_of_model(st, value, name, depth),
    decreases depth, 4nat, 0nat,
{
    match value {
        ValueView::Dict(dict) => {
            if name.0 < st.names.len() && dict.contains_key(st.names[name.0 as int]) {
                lemma_force_settled(st, dict[st.names[name.0 as int]], depth, more);
            }
        },
        _ => {},
    }
}

/// Taking an item settles alike within a larger budget.
pub proof fn lemma_item_settled(
    st: State,
    collection: ValueView,
    index: ValueView,
    depth: nat,
    more: nat,
)
    requires
        depth <= more,
        settled(item_model(st, collection, index, depth)),
    ensures
        item_model(st, collection, index, more) == item_model(st, collection, index, depth),
    decreases depth, 5nat, 0nat,
{
    match collection {
        ValueView::Array(ids) => match index {
            ValueView::Number(n) => {
                if in_bounds(n, ids.len()) {
                    lemma_force_settled(st, ids[index_of(n).unwrap() as int], depth, more);
                }
            },
            _ => {},
        },
        ValueView::Dict(dict) => match index {
            ValueView::String(key) => {
                lemma_entry_settled(st, dict, key, depth, more);
            },
            _ => {},
        },
        _ => {},
    }
}

/// A binary operator settles alike within a larger budget.
proof fn lemma_binary_settled(
    st: State,
    env: Map<usize, usize>,
    op: BinaryOp,
    left: Expr,
    right: Expr,
    depth: nat,
    more: nat,
)
    requires
        depth <= more,
        settled(binary_model(st, env, op, left, right, depth)),
    ensures
        binary_model(st, env, op, left, right, more) == binary_model(
            st,
            env,
            op,
            left,
            right,
            depth,
        ),
    decreases depth, 5nat, 0nat,
{
    let l = eval_model(st, env, left, depth);
    match op {
        BinaryOp::Eq | BinaryOp::NotEq => {
            assert(binary_model(st, env, op, left, right, depth) == equality_op_model(
                st,
                env,
                op == BinaryOp::NotEq,
                left,
                right,
                depth,
            ));
            assert(binary_model(st, env, op, left, right, more) == equality_op_model(
                st,
                env,
                op == BinaryOp::NotEq,
                left,
                right,
                more,
            ));
            lemma_eval_settled(st, env, left, depth, more);
            if let Ok(a) = l.result {
                let r = eval_model(l.state, env, right, depth);
                lemma_eval_settled(l.state, env, right, depth, more);
                if let Ok(b) = r.result {
                    lemma_try_eq_settled(r.state, a, b, depth, more);
                }
            }
        },
        BinaryOp::And | BinaryOp::Or => {
            assert(binary_model(st, env, op, left, right, depth) == logical_op_model(
                st,
                env,
                op == BinaryOp::Or,
                left,
                right,
                depth,
            ));
            assert(binary_model(st, env, op, left, right, more) == logical_op_model(
                st,
                env,
                op == BinaryOp::Or,
                left,
                right,
                more,
            ));
            lemma_eval_settled(st, env, left, depth, more);
            if let Ok(a) = l.result {
                if truth_operand(a) == Ok::<bool, ErrorView>(op != BinaryOp::Or) {
                    lemma_eval_settled(l.state, env, right, depth, more);
                }
            }
        },
        _ => {
            assert(binary_model(st, env, op, left, right, depth) == arithmetic_op_model(
                st,
                env,
                op,
                left,
                right,
                depth,
            ));
            assert(binary_model(st, env, op, left, right, more) == arithmetic_op_model(
                st,
                env,
                op,
                left,
                right,
                more,
            ));
            lemma_eval_settled(st, env, left, depth, more);
            if l.result.is_ok() {
                lemma_eval_settled(l.state, env, right, depth, more);
            }
        },
    }
}

/// The depth budget is a limit and nothing else: an evaluation that ends
/// with anything but `DepthExhausted` ends with the same result and the
/// same state under every larger budget.
pub proof fn lemma_eval_settled(
    st: State,
    env: Map<usize, usize>,
    expr: Expr,
    depth: nat,
    more: nat,
)
    requires
        depth <= more,
        settled(eval_model(st, env, expr, depth)),
    ensures
        eval_model(st, env, expr, more) == eval_model(st, env, expr, depth),
    decreases depth, 0nat, 0nat,
{
    let d = (depth - 1) as nat;
    let m = (more - 1) as nat;
    match expr {
        Expr::Variable(name) => {
            if env.contains_key(name.0) {
                lemma_force_settled(st, env[name.0], d, m);
            }
        },
        Expr::UnaryOp(op, operand) => {
            let ghost inner: Expr = *operand;
            lemma_eval_settled(st, env, inner, d, m);
        },
        Expr::BinaryOp(op, left, right) => {
            let ghost first: Expr = *left;
            let ghost second: Expr = *right;
            lemma_binary_settled(st, env, op, first, second, d, m);
        },
        Expr::If(cond, then, otherwise) => {
            let ghost first: Expr = *cond;
            let ghost second: Expr = *then;
            let ghost third: Expr = *otherwise;
            let c = eval_model(st, env, first, d);
            lemma_eval_settled(st, env, first, d, m);
            if let Ok(ValueView::Bool(b)) = c.result {
                if b {
                    lemma_eval_settled(c.state, env, second, d, m);
                } else {
                    lemma_eval_settled(c.state, env, third, d, m);
                }
            }
        },
        Expr::Local(name, bound, body) => {
            let ghost first: Expr = *bound;
            let ghost second: Expr = *body;
            let inner = env.insert(name.0, st.cells.len() as usize);
            lemma_eval_settled(st.allocate(Some(inner), first), inner, second, d, m);
        },
        Expr::FunctionCall(callee, args) => {
            let ghost first: Expr = *callee;
            let f = eval_model(st, env, first, d);
            lemma_eval_settled(st, env, first, d, m);
            if let Ok(ValueView::Closure(captured, params, body)) = f.result {
                if exprs_of(args@).len() == params.len() {
                    lemma_eval_settled(
                        f.state.allocate_each(env, exprs_of(args@)),
                        bind_params(captured, params, f.state.cells.len(), params.len()),
                        body,
                        d,
                        m,
                    );
                }
            }
        },
        Expr::FieldAccess(operand, name) => {
            let ghost first: Expr = *operand;
            let r = eval_model(st, env, first, d);
            lemma_eval_settled(st, env, first, d, m);
            if let Ok(value) = r.result {
                lemma_field_of_settled(r.state, value, name, d, m);
            }
        },
        Expr::IndexAccess(collection, index) => {
            let ghost first: Expr = *collection;
            let ghost second: Expr = *index;
            let c = eval_model(st, env, first, d);
            lemma_eval_settled(st, env, first, d, m);
            if let Ok(target) = c.result {
                let i = eval_model(c.state, env, second, d);
                lemma_eval_settled(c.state, env, second, d, m);
                if let Ok(at) = i.result {
                    lemma_item_settled(i.state, target, at, d, m);
                }
            }
        },
        _ => {},
    }
}

/// The serialization ended with something else than the exhaustion of the
/// depth budget.
pub open spec fn rendered_settled<T>(outcome: Rendered<T>) -> bool {
    outcome.result != Err::<T, SerializeErrorView>(
        SerializeErrorView::Eval(ErrorView::DepthExhausted),
    )
}

/// Serializing items settles alike within a larger budget.
pub proof fn lemma_serialize_items_settled(
    st: State,
    ids: Seq<usize>,
    from: nat,
    before: Seq<JsonView>,
    depth: nat,
    more: nat,
)
    requires
        depth <= more,
        rendered_settled(serialize_items_model(st, ids, from, before, depth)),
    ensures
        serialize_items_model(st, ids, from, before, more) == serialize_items_model(
            st,
            ids,
            from,
            before,
            depth,
        ),
    decreases depth, 2nat, ids.len() - from,
{
    if from < ids.len() {
        assert(depth > 0);
        let d = (depth - 1) as nat;
        let m = (more - 1) as nat;
        let forced = force_model(st, ids[from as int], d);
        lemma_force_settled(st, ids[from as int], d, m);
        if let Ok(value) = forced.result {
            let tree = serialize_model(forced.state, value, d);
            lemma_serialize_settled(forced.state, value, d, m);
            if let Ok(json) = tree.result {
                lemma_serialize_items_settled(
                    tree.state,
                    ids,
                    from + 1,
                    before.push(json),
                    depth,
                    more,
                );
            }
        }
    }
}

/// Serializing entries settles alike within a larger budget.
pub proof fn lemma_serialize_entries_settled(
    st: State,
    keys: Seq<Seq<char>>,
    dict: Map<Seq<char>, usize>,
    from: nat,
    before: Seq<(Seq<char>, JsonView)>,
    depth: nat,
    more: nat,
)
    requires
        depth <= more,
        rendered_settled(serialize_entries_model(st, keys, dict, from, before, depth)),
    ensures
        serialize_entries_model(st, keys, dict, from, before, more) == serialize_entries_model(
            st,
            keys,
            dict,
            from,
            before,
            depth,
        ),
    decreases depth, 2nat, keys.len() - from,
{
    if from < keys.len() {
        assert(depth > 0);
        let d = (depth - 1) as nat;
        let m = (more - 1) as nat;
        let key = keys[from as int];
        let forced = force_model(st, dict[key], d);
        lemma_force_settled(st, dict[key], d, m);
        if let Ok(value) = forced.result {
            let tree = serialize_model(forced.state, value, d);
            lemma_serialize_settled(forced.state, value, d, m);
            if let Ok(json) = tree.result {
                lemma_serialize_entries_settled(
                    tree.state,
                    keys,
                    dict,
                    from + 1,
                    before.push((key, json)),
                    depth,
                    more,
                );
            }
        }
    }
}

/// A serialization that ends with anything but the exhaustion of the depth
/// budget ends alike under every larger budget.
pub proof fn lemma_serialize_settled(st: State, value: ValueView, depth: nat, more: nat)
    requires
        depth <= more,
        rendered_settled(serialize_model(st, value, depth)),
    ensures
        serialize_model(st, value, more) == serialize_model(st, value, depth),
    decreases depth, 3nat, 0nat,
{
    match value {
        ValueView::Array(ids) => {
            lemma_serialize_items_settled(st, ids, 0, Seq::empty(), depth, more);
        },
        ValueView::Dict(dict) => {
            lemma_serialize_entries_settled(
                st,
                sorted_keys(dict),
                dict,
                0,
                Seq::empty(),
                depth,
                more,
            );
        },
        _ => {},
    }
}

} // verus!
