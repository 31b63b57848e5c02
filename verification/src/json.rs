//! The output of the language: a value with every thunk forced, as a tree
//! of JSON data whose objects list their keys in ascending order.

use crate::eval::EvalError;
use crate::number::Number;
use crate::order::{keys_of, sorted_entries, sorted_keys};
use crate::persistent::{entries, items, items_get, items_len, Dict};
use crate::semantics::{
    force_model, lemma_extends_reflexive, lemma_extends_transitive, ErrorView, State, ValueView,
};
use crate::value::{Runtime, Thunk, Value};
use vstd::prelude::*;
use vstd::string::*;

verus! {

/// A tree of JSON data.
#[derive(Debug)]
pub enum Json {
    Null,
    Bool(bool),
    Number(Number),
    String(String),
    Array(Vec<Json>),
    Object(Vec<(String, Json)>),
}

/// A tree of JSON data, as mathematics.
pub enum JsonView {
    Null,
    Bool(bool),
    Number(u64),
    String(Seq<char>),
    Array(Seq<JsonView>),
    Object(Seq<(Seq<char>, JsonView)>),
}

/// Why a value has no JSON form.
#[derive(Debug)]
pub enum SerializeError {
    /// Forcing a thunk of the value failed.
    Eval(EvalError),
    /// The value is or holds a closure.
    Closure,
}

/// Why a value has no JSON form, as mathematics.
pub enum SerializeErrorView {
    Eval(ErrorView),
    Closure,
}

impl View for SerializeError {
    type V = SerializeErrorView;

    open spec fn view(&self) -> SerializeErrorView {
        match *self {
            SerializeError::Eval(error) => SerializeErrorView::Eval(error@),
            SerializeError::Closure => SerializeErrorView::Closure,
        }
    }
}

/// The views of the first `count` trees of a list.
pub open spec fn json_list_view(list: Seq<Json>, count: nat) -> Seq<JsonView>
    decreases list, count,
{
    if count == 0 || count > list.len() {
        Seq::empty()
    } else {
        json_list_view(list, (count - 1) as nat).push(json_view(list[count - 1]))
    }
}

/// The views of the first `count` members of an object.
pub open spec fn json_members_view(list: Seq<(String, Json)>, count: nat) -> Seq<
    (Seq<char>, JsonView),
>
    decreases list, count,
{
    if count == 0 || count > list.len() {
        Seq::empty()
    } else {
        json_members_view(list, (count - 1) as nat).push(
            (list[count - 1].0@, json_view(list[count - 1].1)),
        )
    }
}

/// The view of a tree.
pub open spec fn json_view(json: Json) -> JsonView
    decreases json,
{
    match json {
        Json::Null => JsonView::Null,
        Json::Bool(b) => JsonView::Bool(b),
        Json::Number(n) => JsonView::Number(n.bits),
        Json::String(text) => JsonView::String(text@),
        Json::Array(list) => JsonView::Array(json_list_view(list@, list@.len())),
        Json::Object(members) => JsonView::Object(json_members_view(members@, members@.len())),
    }
}

impl View for Json {
    type V = JsonView;

    open spec fn view(&self) -> JsonView {
        json_view(*self)
    }
}

/// A result of serialization together with the state that it left.
pub struct Rendered<T> {
    pub result: Result<T, SerializeErrorView>,
    pub state: State,
}

/// The trees of the items of an array from `from` on, put behind the trees
/// `before` of the items before: each item is forced, then serialized.
pub open spec fn serialize_items_model(
    st: State,
    ids: Seq<usize>,
    from: nat,
    before: Seq<JsonView>,
    depth: nat,
) -> Rendered<Seq<JsonView>>
    decreases depth, 2nat, ids.len() - from,
{
    if from >= ids.len() {
        Rendered { result: Ok(before), state: st }
    } else if depth == 0 {
        Rendered { result: Err(SerializeErrorView::Eval(ErrorView::DepthExhausted)), state: st }
    } else {
        let d = (depth - 1) as nat;
        let forced = force_model(st, ids[from as int], d);
        match forced.result {
            Err(e) => Rendered { result: Err(SerializeErrorView::Eval(e)), state: forced.state },
            Ok(value) => {
                let tree = serialize_model(forced.state, value, d);
                match tree.result {
                    Err(e) => Rendered { result: Err(e), state: tree.state },
                    Ok(json) => serialize_items_model(
                        tree.state,
                        ids,
                        from + 1,
                        before.push(json),
                        depth,
                    ),
                }
            },
        }
    }
}

/// The members of an object for the keys from `from` on, put behind the
/// members `before` of the keys before: each value is forced, then
/// serialized.
pub open spec fn serialize_entries_model(
    st: State,
    keys: Seq<Seq<char>>,
    dict: Map<Seq<char>, usize>,
    from: nat,
    before: Seq<(Seq<char>, JsonView)>,
    depth: nat,
) -> Rendered<Seq<(Seq<char>, JsonView)>>
    decreases depth, 2nat, keys.len() - from,
{
    if from >= keys.len() {
        Rendered { result: Ok(before), state: st }
    } else if depth == 0 {
        Rendered { result: Err(SerializeErrorView::Eval(ErrorView::DepthExhausted)), state: st }
    } else {
        let d = (depth - 1) as nat;
        let key = keys[from as int];
        let forced = force_model(st, dict[key], d);
        match forced.result {
            Err(e) => Rendered { result: Err(SerializeErrorView::Eval(e)), state: forced.state },
            Ok(value) => {
                let tree = serialize_model(forced.state, value, d);
                match tree.result {
                    Err(e) => Rendered { result: Err(e), state: tree.state },
                    Ok(json) => serialize_entries_model(
                        tree.state,
                        keys,
                        dict,
                        from + 1,
                        before.push((key, json)),
                        depth,
                    ),
                }
            },
        }
    }
}

/// The JSON form of a value: null, truth values, numbers and strings as
/// they are; an array as the forms of its items, in order; a dictionary as
/// an object whose members come in the ascending order of their keys. A
/// closure has no JSON form.
pub open spec fn serialize_model(st: State, value: ValueView, depth: nat) -> Rendered<JsonView>
    decreases depth, 3nat, 0nat,
{
    match value {
        ValueView::Null => Rendered { result: Ok(JsonView::Null), state: st },
        ValueView::Bool(b) => Rendered { result: Ok(JsonView::Bool(b)), state: st },
        ValueView::Number(n) => Rendered { result: Ok(JsonView::Number(n)), state: st },
        ValueView::String(text) => Rendered { result: Ok(JsonView::String(text)), state: st },
        ValueView::Array(ids) => {
            let r = serialize_items_model(st, ids, 0, Seq::empty(), depth);
            match r.result {
                Ok(list) => Rendered { result: Ok(JsonView::Array(list)), state: r.state },
                Err(e) => Rendered { result: Err(e), state: r.state },
            }
        },
        ValueView::Dict(dict) => {
            let r = serialize_entries_model(st, sorted_keys(dict), dict, 0, Seq::empty(), depth);
            match r.result {
                Ok(members) => Rendered { result: Ok(JsonView::Object(members)), state: r.state },
                Err(e) => Rendered { result: Err(e), state: r.state },
            }
        },
        ValueView::Closure(_, _, _) => Rendered {
            result: Err(SerializeErrorView::Closure),
            state: st,
        },
    }
}

/// The serialization failed because a thunk without environment was
/// forced.
pub open spec fn env_not_set<T>(result: Result<T, SerializeErrorView>) -> bool {
    result == Err::<T, SerializeErrorView>(SerializeErrorView::Eval(ErrorView::EnvNotSet))
}

/// The serialization that the model gives as `expected` is admitted: it
/// does not force a thunk that has neither a value nor an environment. That
/// is so in every runtime in which every thunk has its environment.
pub open spec fn renderable<T>(rt: Runtime, expected: Rendered<T>) -> bool {
    rt.ready() || !env_not_set(expected.result)
}

/// A serialization that started in `before` has left `after` and `r`, which
/// are what the model gives as `expected`. The runtime is still consistent
/// and holds all that it held. No thunk without environment was forced; if
/// every thunk had its environment, every thunk has it now.
pub open spec fn rendered(
    before: Runtime,
    after: Runtime,
    r: Result<Json, SerializeError>,
    expected: Rendered<JsonView>,
) -> bool {
    &&& after.wf()
    &&& before.ready() ==> after.ready()
    &&& !env_not_set(expected.result)
    &&& before@.extends_to(after@)
    &&& expected.state == after@
    &&& expected.result == match r {
        Ok(json) => Ok::<JsonView, SerializeErrorView>(json@),
        Err(error) => Err::<JsonView, SerializeErrorView>(error@),
    }
}

/// The views of the first trees of a list do not depend on what follows
/// them.
pub proof fn lemma_json_list_view_prefix(a: Seq<Json>, b: Seq<Json>, count: nat)
    requires
        count <= a.len(),
        count <= b.len(),
        forall|i: int| 0 <= i < count ==> a[i] == b[i],
    ensures
        json_list_view(a, count) == json_list_view(b, count),
    decreases count,
{
    if count > 0 {
        lemma_json_list_view_prefix(a, b, (count - 1) as nat);
    }
}

/// The views of the first members of an object do not depend on what
/// follows them.
pub proof fn lemma_json_members_view_prefix(
    a: Seq<(String, Json)>,
    b: Seq<(String, Json)>,
    count: nat,
)
    requires
        count <= a.len(),
        count <= b.len(),
        forall|i: int| 0 <= i < count ==> a[i] == b[i],
    ensures
        json_members_view(a, count) == json_members_view(b, count),
    decreases count,
{
    if count > 0 {
        lemma_json_members_view_prefix(a, b, (count - 1) as nat);
    }
}

impl Value {
    /// The JSON form of the value. Thunks of arrays and dictionaries are
    /// forced as the walk meets them; the members of an object come in the
    /// ascending order of their keys, whatever order the dictionary holds
    /// them in.
    pub fn serialize(&self, rt: &mut Runtime, depth: usize) -> (r: Result<Json, SerializeError>)
        requires
            old(rt).wf(),
            old(rt)@.value_fits(self@),
            renderable(*old(rt), serialize_model(old(rt)@, self@, depth as nat)),
        ensures
            rendered(*old(rt), *final(rt), r, serialize_model(old(rt)@, self@, depth as nat)),
        decreases depth, 3nat, 0nat,
    {
        proof {
            lemma_extends_reflexive(rt@);
        }
        match self {
            Value::Null => Ok(Json::Null),
            Value::Bool(b) => Ok(Json::Bool(*b)),
            Value::Number(n) => Ok(Json::Number(*n)),
            Value::String(text) => {
                let whole: &String = text;
                Ok(Json::String(whole.clone()))
            },
            Value::Array(array) => {
                match serialize_items(rt, array, depth) {
                    Ok(list) => Ok(Json::Array(list)),
                    Err(error) => Err(error),
                }
            },
            Value::Dict(dict) => {
                let keyed = sorted_entries(dict);
                match serialize_entries(rt, keyed, dict, depth) {
                    Ok(members) => Ok(Json::Object(members)),
                    Err(error) => Err(error),
                }
            },
            Value::Closure(_, _, _) => Err(SerializeError::Closure),
        }
    }
}

/// The trees of the items of an array, in order.
fn serialize_items(rt: &mut Runtime, array: &im_rc::Vector<usize>, depth: usize) -> (r: Result<
    Vec<Json>,
    SerializeError,
>)
    requires
        old(rt).wf(),
        old(rt)@.items_fit(items(*array)),
        renderable(
            *old(rt),
            serialize_items_model(old(rt)@, items(*array), 0, Seq::empty(), depth as nat),
        ),
    ensures
        final(rt).wf(),
        old(rt).ready() ==> final(rt).ready(),
        !env_not_set(
            serialize_items_model(old(rt)@, items(*array), 0, Seq::empty(), depth as nat).result,
        ),
        old(rt)@.extends_to(final(rt)@),
        serialize_items_model(old(rt)@, items(*array), 0, Seq::empty(), depth as nat).state
            == final(rt)@,
        serialize_items_model(old(rt)@, items(*array), 0, Seq::empty(), depth as nat).result
            == match r {
            Ok(list) => Ok::<Seq<JsonView>, SerializeErrorView>(
                json_list_view(list@, list@.len()),
            ),
            Err(error) => Err::<Seq<JsonView>, SerializeErrorView>(error@),
        },
    decreases depth, 2nat, 0nat,
{
    let ghost start = rt@;
    let ghost ids = items(*array);
    let count = items_len(array);
    let mut list: Vec<Json> = Vec::new();
    let mut at: usize = 0;
    proof {
        lemma_extends_reflexive(start);
    }
    while at < count
        invariant
            at <= count,
            start == old(rt)@,
            count == ids.len(),
            ids == items(*array),
            rt.wf(),
            old(rt).ready() ==> rt.ready(),
            renderable(*old(rt), serialize_items_model(start, ids, 0, Seq::empty(), depth as nat)),
            start.extends_to(rt@),
            rt@.items_fit(ids),
            serialize_items_model(
                rt@,
                ids,
                at as nat,
                json_list_view(list@, list@.len()),
                depth as nat,
            ) == serialize_items_model(start, ids, 0, Seq::empty(), depth as nat),
        decreases count - at,
    {
        if depth == 0 {
            return Err(SerializeError::Eval(EvalError::DepthExhausted));
        }
        let before = Ghost(rt@);
        let id = match items_get(array, at) {
            Some(id) => id,
            None => unreached(),
        };
        let value = match (Thunk { id }).force(rt, depth - 1) {
            Ok(value) => value,
            Err(error) => {
                proof {
                    lemma_extends_transitive(start, before@, rt@);
                }
                return Err(SerializeError::Eval(error));
            },
        };
        let ghost second = rt@;
        let tree = value.serialize(rt, depth - 1);
        proof {
            lemma_extends_transitive(before@, second, rt@);
            lemma_extends_transitive(start, before@, rt@);
        }
        let json = match tree {
            Ok(json) => json,
            Err(error) => {
                return Err(error);
            },
        };
        let ghost earlier = list@;
        list.push(json);
        proof {
            lemma_json_list_view_prefix(earlier, list@, earlier.len());
        }
        at = at + 1;
    }
    Ok(list)
}

/// The members of an object for the entries of a dictionary, which are
/// given in the ascending order of their keys.
fn serialize_entries(
    rt: &mut Runtime,
    keyed: Vec<(String, usize)>,
    dict: &Dict,
    depth: usize,
) -> (r: Result<Vec<(String, Json)>, SerializeError>)
    requires
        old(rt).wf(),
        old(rt)@.entries_fit(entries(*dict)),
        forall|i: int|
            0 <= i < keyed@.len() ==> entries(*dict).contains_key(#[trigger] keyed@[i].0@)
                && entries(*dict)[keyed@[i].0@] == keyed@[i].1,
        renderable(
            *old(rt),
            serialize_entries_model(
                old(rt)@,
                keys_of(keyed@),
                entries(*dict),
                0,
                Seq::empty(),
                depth as nat,
            ),
        ),
    ensures
        final(rt).wf(),
        old(rt).ready() ==> final(rt).ready(),
        !env_not_set(
            serialize_entries_model(
                old(rt)@,
                keys_of(keyed@),
                entries(*dict),
                0,
                Seq::empty(),
                depth as nat,
            ).result,
        ),
        old(rt)@.extends_to(final(rt)@),
        serialize_entries_model(
            old(rt)@,
            keys_of(keyed@),
            entries(*dict),
            0,
            Seq::empty(),
            depth as nat,
        ).state == final(rt)@,
        serialize_entries_model(
            old(rt)@,
            keys_of(keyed@),
            entries(*dict),
            0,
            Seq::empty(),
            depth as nat,
        ).result == match r {
            Ok(members) => Ok::<Seq<(Seq<char>, JsonView)>, SerializeErrorView>(
                json_members_view(members@, members@.len()),
            ),
            Err(error) => Err::<Seq<(Seq<char>, JsonView)>, SerializeErrorView>(error@),
        },
    decreases depth, 2nat, 0nat,
{
    let ghost start = rt@;
    let ghost keys = keys_of(keyed@);
    let ghost map = entries(*dict);
    let count = keyed.len();
    let mut members: Vec<(String, Json)> = Vec::new();
    let mut at: usize = 0;
    proof {
        lemma_extends_reflexive(start);
    }
    while at < count
        invariant
            at <= count,
            start == old(rt)@,
            count == keyed@.len(),
            keys == keys_of(keyed@),
            map == entries(*dict),
            forall|i: int|
                0 <= i < keyed@.len() ==> map.contains_key(#[trigger] keyed@[i].0@)
                    && map[keyed@[i].0@] == keyed@[i].1,
            rt.wf(),
            old(rt).ready() ==> rt.ready(),
            renderable(
                *old(rt),
                serialize_entries_model(start, keys, map, 0, Seq::empty(), depth as nat),
            ),
            start.extends_to(rt@),
            rt@.entries_fit(map),
            serialize_entries_model(
                rt@,
                keys,
                map,
                at as nat,
                json_members_view(members@, members@.len()),
                depth as nat,
            ) == serialize_entries_model(start, keys, map, 0, Seq::empty(), depth as nat),
        decreases count - at,
    {
        if depth == 0 {
            return Err(SerializeError::Eval(EvalError::DepthExhausted));
        }
        let before = Ghost(rt@);
        assert(keys[at as int] == keyed@[at as int].0@);
        let id = keyed[at].1;
        let value = match (Thunk { id }).force(rt, depth - 1) {
            Ok(value) => value,
            Err(error) => {
                proof {
                    lemma_extends_transitive(start, before@, rt@);
                }
                return Err(SerializeError::Eval(error));
            },
        };
        let ghost second = rt@;
        let tree = value.serialize(rt, depth - 1);
        proof {
            lemma_extends_transitive(before@, second, rt@);
            lemma_extends_transitive(start, before@, rt@);
        }
        let json = match tree {
            Ok(json) => json,
            Err(error) => {
                return Err(error);
            },
        };
        let ghost earlier = members@;
        members.push((keyed[at].0.clone(), json));
        proof {
            lemma_json_members_view_prefix(earlier, members@, earlier.len());
        }
        at = at + 1;
    }
    Ok(members)
}

} // verus!
