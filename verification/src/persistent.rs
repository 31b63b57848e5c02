//! The persistent collections of `im_rc` that environments, arrays and
//! dictionaries are made of, and what this library assumes of them.
//!
//! Verus does not read `im_rc`. Each function here makes one call into it;
//! its contract says, over the contents of the collection, what the source
//! of `im_rc` shows of that call. Nothing here is proved.

use compact_str::CompactString;
use vstd::prelude::*;

verus! {

/// `im_rc::HashMap`, the persistent hash map: an opaque value to Verus.
#[verifier::external_type_specification]
#[verifier::external_body]
#[verifier::reject_recursive_types(K)]
#[verifier::reject_recursive_types(V)]
#[verifier::reject_recursive_types(S)]
pub struct ExHashMap<K, V, S>(im_rc::HashMap<K, V, S>);

/// `im_rc::Vector`, the persistent vector: an opaque value to Verus.
#[verifier::external_type_specification]
#[verifier::external_body]
#[verifier::reject_recursive_types(A)]
pub struct ExVector<A>(im_rc::Vector<A>);

/// A dictionary value: an `im_rc::HashMap` from short strings
/// (`compact_str::CompactString`) to thunk numbers. Verus cannot take the
/// key type, so the map is held behind this struct.
#[verifier::external_body]
#[derive(Debug)]
pub struct Dict {
    map: im_rc::HashMap<CompactString, usize>,
}

/// The bindings that a persistent map of an environment holds.
pub uninterp spec fn bindings(map: im_rc::HashMap<usize, usize>) -> Map<usize, usize>;

/// The items that a persistent vector holds, in order.
pub uninterp spec fn items(vector: im_rc::Vector<usize>) -> Seq<usize>;

/// The entries that a dictionary holds, each key as its characters.
pub uninterp spec fn entries(dict: Dict) -> Map<Seq<char>, usize>;

/// `im_rc::HashMap::new`: a map without bindings.
#[verifier::external_body]
pub(crate) fn bindings_new() -> (r: im_rc::HashMap<usize, usize>)
    ensures
        bindings(r) == (Map::<usize, usize>::empty()),
{
    im_rc::HashMap::new()
}

/// `im_rc::HashMap::update`: a new map that holds the bindings of `map` and
/// binds `key` to `value`, in place of an earlier binding of `key`.
#[verifier::external_body]
pub(crate) fn bindings_update(map: &im_rc::HashMap<usize, usize>, key: usize, value: usize) -> (r:
    im_rc::HashMap<usize, usize>)
    ensures
        bindings(r) == bindings(*map).insert(key, value),
{
    map.update(key, value)
}

/// `im_rc::HashMap::get`: the value bound to `key`, or `None` where the map
/// does not bind it.
#[verifier::external_body]
pub(crate) fn bindings_get(map: &im_rc::HashMap<usize, usize>, key: usize) -> (r: Option<usize>)
    ensures
        r == if bindings(*map).contains_key(key) {
            Some(bindings(*map)[key])
        } else {
            None
        },
{
    map.get(&key).copied()
}

/// `Clone::clone` of `im_rc::HashMap`: a map with the same bindings.
#[verifier::external_body]
pub(crate) fn bindings_clone(map: &im_rc::HashMap<usize, usize>) -> (r: im_rc::HashMap<
    usize,
    usize,
>)
    ensures
        bindings(r) == bindings(*map),
{
    map.clone()
}

/// `From<Vec<A>>` of `im_rc::Vector`: a vector of the items of `list`, in
/// the same order.
#[verifier::external_body]
pub(crate) fn items_from_vec(list: Vec<usize>) -> (r: im_rc::Vector<usize>)
    ensures
        items(r) == list@,
{
    im_rc::Vector::from(list)
}

/// `im_rc::Vector::len`: the number of items.
#[verifier::external_body]
pub(crate) fn items_len(vector: &im_rc::Vector<usize>) -> (r: usize)
    ensures
        r == items(*vector).len(),
{
    vector.len()
}

/// `im_rc::Vector::get`: the item at `index`, or `None` where `index` is
/// not below the length.
#[verifier::external_body]
pub(crate) fn items_get(vector: &im_rc::Vector<usize>, index: usize) -> (r: Option<usize>)
    ensures
        r == if index < items(*vector).len() {
            Some(items(*vector)[index as int])
        } else {
            None
        },
{
    vector.get(index).copied()
}

/// `Clone::clone` of `im_rc::Vector`: a vector with the same items.
#[verifier::external_body]
pub(crate) fn items_clone(vector: &im_rc::Vector<usize>) -> (r: im_rc::Vector<usize>)
    ensures
        items(r) == items(*vector),
{
    vector.clone()
}

/// `im_rc::HashMap::new`: a dictionary without entries.
#[verifier::external_body]
pub(crate) fn entries_new() -> (r: Dict)
    ensures
        entries(r) == (Map::<Seq<char>, usize>::empty()),
{
    Dict { map: im_rc::HashMap::new() }
}

/// `im_rc::HashMap::insert`, with the key made by `CompactString::new`:
/// afterwards the dictionary binds `key` to `value`, in place of an earlier
/// entry of `key`, and holds its other entries as before.
#[verifier::external_body]
pub(crate) fn entries_insert(dict: &mut Dict, key: &str, value: usize)
    ensures
        entries(*final(dict)) == entries(*old(dict)).insert(key@, value),
{
    dict.map.insert(CompactString::new(key), value);
}

/// `im_rc::HashMap::get`, called with the key as a `str`: the value of the
/// entry of `key`, or `None` where there is none.
#[verifier::external_body]
pub(crate) fn entries_get(dict: &Dict, key: &str) -> (r: Option<usize>)
    ensures
        r == if entries(*dict).contains_key(key@) {
            Some(entries(*dict)[key@])
        } else {
            None
        },
{
    dict.map.get(key).copied()
}

/// `im_rc::HashMap::len`: the number of entries.
#[verifier::external_body]
pub(crate) fn entries_len(dict: &Dict) -> (r: usize)
    ensures
        r == entries(*dict).len(),
{
    dict.map.len()
}

/// `Clone::clone` of `im_rc::HashMap`: a dictionary with the same entries.
#[verifier::external_body]
pub(crate) fn entries_clone(dict: &Dict) -> (r: Dict)
    ensures
        entries(r) == entries(*dict),
{
    Dict { map: dict.map.clone() }
}

/// `im_rc::HashMap::iter`, each pair handed out as a `String` and a number.
/// The walk gives every entry once; the order is that of the hasher and is
/// left open.
#[verifier::external_body]
pub(crate) fn entries_list(dict: &Dict) -> (r: Vec<(String, usize)>)
    ensures
        (forall|i: int|
            0 <= i < r@.len() ==> entries(*dict).contains_key(#[trigger] r@[i].0@) && entries(
                *dict,
            )[r@[i].0@] == r@[i].1),
        (forall|key: Seq<char>| #[trigger]
            entries(*dict).contains_key(key) ==> exists|i: int|
                0 <= i < r@.len() && r@[i].0@ == key),
        (forall|i: int, j: int|
            0 <= i < j < r@.len() ==> (#[trigger] r@[i]).0@ != (#[trigger] r@[j]).0@),
{
    dict.map.iter().map(|(key, value)| (key.as_str().to_owned(), *value)).collect()
}

} // verus!
