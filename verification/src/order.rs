//! The order of dictionary keys: strings compared character by character,
//! by code point. Dictionaries are walked in this order wherever the order
//! of the walk can be observed.

use crate::persistent::{entries, entries_list, Dict};
use vstd::multiset::*;
use vstd::prelude::*;
use vstd::relations::*;
use vstd::seq_lib::*;

verus! {

/// `a` comes before `b`, or is `b`, in the lexicographic order of code
/// points: at the first place where the two differ `a` has the smaller
/// character, or `a` ends there.
pub open spec fn text_le(a: Seq<char>, b: Seq<char>) -> bool
    decreases a.len(),
{
    if a.len() == 0 {
        true
    } else if b.len() == 0 {
        false
    } else if a[0] == b[0] {
        text_le(a.drop_first(), b.drop_first())
    } else {
        a[0] < b[0]
    }
}

/// The key order as a relation.
pub open spec fn key_order() -> spec_fn(Seq<char>, Seq<char>) -> bool {
    |a: Seq<char>, b: Seq<char>| text_le(a, b)
}

/// Each key comes strictly before the next.
pub open spec fn ascending(keys: Seq<Seq<char>>) -> bool {
    forall|i: int, j: int|
        0 <= i < j < keys.len() ==> text_le(#[trigger] keys[i], #[trigger] keys[j]) && keys[i]
            != keys[j]
}

/// The keys of a dictionary in ascending order: the one sequence that is
/// ascending and holds exactly the keys.
pub open spec fn sorted_keys(dict: Map<Seq<char>, usize>) -> Seq<Seq<char>> {
    choose|keys: Seq<Seq<char>>| ascending(keys) && keys.to_set() == dict.dom()
}

/// The keys of a list of entries, in the order of the list.
pub open spec fn keys_of(list: Seq<(String, usize)>) -> Seq<Seq<char>> {
    list.map_values(|entry: (String, usize)| entry.0@)
}

/// Calls `PartialOrd::le` of `str`, which std documents as the
/// lexicographic order of the strings' bytes and so of their code points.
#[verifier::external_body]
fn str_le(a: &str, b: &str) -> (r: bool)
    ensures
        r == text_le(a@, b@),
{
    a <= b
}

pub proof fn lemma_text_le_reflexive(a: Seq<char>)
    ensures
        text_le(a, a),
    decreases a.len(),
{
    if a.len() > 0 {
        lemma_text_le_reflexive(a.drop_first());
    }
}

pub proof fn lemma_text_le_antisymmetric(a: Seq<char>, b: Seq<char>)
    requires
        text_le(a, b),
        text_le(b, a),
    ensures
        a == b,
    decreases a.len(),
{
    if a.len() == 0 {
        assert(a =~= b);
    } else {
        lemma_text_le_antisymmetric(a.drop_first(), b.drop_first());
        assert(a =~= seq![a[0]] + a.drop_first());
        assert(b =~= seq![b[0]] + b.drop_first());
    }
}

pub proof fn lemma_text_le_transitive(a: Seq<char>, b: Seq<char>, c: Seq<char>)
    requires
        text_le(a, b),
        text_le(b, c),
    ensures
        text_le(a, c),
    decreases a.len(),
{
    if a.len() > 0 && a[0] == b[0] && b[0] == c[0] {
        lemma_text_le_transitive(a.drop_first(), b.drop_first(), c.drop_first());
    }
}

pub proof fn lemma_text_le_total(a: Seq<char>, b: Seq<char>)
    ensures
        text_le(a, b) || text_le(b, a),
    decreases a.len(),
{
    if a.len() > 0 && b.len() > 0 {
        if a[0] == b[0] {
            lemma_text_le_total(a.drop_first(), b.drop_first());
        }
    }
}

/// The key order is a total order.
pub proof fn lemma_key_order_total()
    ensures
        total_ordering(key_order()),
{
    let r = key_order();
    assert forall|x: Seq<char>| #[trigger] r(x, x) by {
        lemma_text_le_reflexive(x);
    }
    assert forall|x: Seq<char>, y: Seq<char>| #[trigger] r(x, y) && #[trigger] r(y, x) implies x
        == y by {
        lemma_text_le_antisymmetric(x, y);
    }
    assert forall|x: Seq<char>, y: Seq<char>, z: Seq<char>| #[trigger]
        r(x, y) && #[trigger] r(y, z) implies r(x, z) by {
        lemma_text_le_transitive(x, y, z);
    }
    assert forall|x: Seq<char>, y: Seq<char>| #[trigger] r(x, y) || #[trigger] r(y, x) by {
        lemma_text_le_total(x, y);
    }
}

/// Two ascending sequences that hold the same keys are the same sequence.
pub proof fn lemma_ascending_unique(x: Seq<Seq<char>>, y: Seq<Seq<char>>)
    requires
        ascending(x),
        ascending(y),
        x.to_set() == y.to_set(),
    ensures
        x == y,
{
    broadcast use group_multiset_axioms;
    broadcast use group_to_multiset_ensures;

    lemma_key_order_total();
    assert(x.no_duplicates());
    assert(y.no_duplicates());
    x.lemma_multiset_has_no_duplicates();
    y.lemma_multiset_has_no_duplicates();
    assert forall|k: Seq<char>| x.to_multiset().count(k) == y.to_multiset().count(k) by {
        assert(x.contains(k) <==> x.to_set().contains(k));
        assert(y.contains(k) <==> y.to_set().contains(k));
    }
    assert(x.to_multiset() =~= y.to_multiset());
    assert(sorted_by(x, key_order()));
    assert(sorted_by(y, key_order()));
    lemma_sorted_unique(x, y, key_order());
}

/// An ascending sequence of exactly the keys of a dictionary is its sorted
/// key sequence.
pub proof fn lemma_sorted_keys_is(dict: Map<Seq<char>, usize>, keys: Seq<Seq<char>>)
    requires
        ascending(keys),
        keys.to_set() == dict.dom(),
    ensures
        sorted_keys(dict) == keys,
        dict.dom().finite(),
        dict.len() == keys.len(),
{
    let chosen = sorted_keys(dict);
    assert(ascending(chosen) && chosen.to_set() == dict.dom());
    lemma_ascending_unique(chosen, keys);
    seq_to_set_is_finite(keys);
    assert(keys.no_duplicates());
    keys.unique_seq_to_set();
}

/// The sequence that a finite set is laid out in holds no element twice.
proof fn lemma_to_seq_no_duplicates(keys: Set<Seq<char>>)
    requires
        keys.finite(),
    ensures
        keys.to_seq().no_duplicates(),
    decreases keys.len(),
{
    broadcast use vstd::set::group_set_axioms;

    if keys.len() != 0 {
        let x = keys.choose();
        let rest = keys.remove(x);
        lemma_to_seq_no_duplicates(rest);
        rest.lemma_to_seq_to_set_id();
        let tail = rest.to_seq();
        let whole = keys.to_seq();
        assert(whole =~= Seq::<Seq<char>>::empty().push(x) + tail);
        assert forall|i: int, j: int| 0 <= i < whole.len() && 0 <= j < whole.len() && i
            != j implies whole[i] != whole[j] by {
            if i > 0 && j > 0 {
                assert(tail[i - 1] != tail[j - 1]);
            } else if i == 0 {
                assert(tail.to_set().contains(tail[j - 1]));
            } else {
                assert(tail.to_set().contains(tail[i - 1]));
            }
        }
    }
}

/// Every finite dictionary has its sorted key sequence: it is ascending
/// and holds exactly the keys.
pub proof fn lemma_sorted_keys_exist(dict: Map<Seq<char>, usize>)
    requires
        dict.dom().finite(),
    ensures
        ascending(sorted_keys(dict)),
        sorted_keys(dict).to_set() == dict.dom(),
        sorted_keys(dict).len() == dict.len(),
{
    broadcast use group_multiset_axioms;
    broadcast use group_to_multiset_ensures;

    let laid = dict.dom().to_seq();
    lemma_to_seq_no_duplicates(dict.dom());
    dict.dom().lemma_to_seq_to_set_id();
    lemma_key_order_total();
    laid.lemma_sort_by_ensures(key_order());
    let sorted = laid.sort_by(key_order());
    laid.lemma_multiset_has_no_duplicates();
    sorted.lemma_multiset_has_no_duplicates_conv();
    assert forall|i: int, j: int| 0 <= i < j < sorted.len() implies text_le(
        #[trigger] sorted[i],
        #[trigger] sorted[j],
    ) && sorted[i] != sorted[j] by {
        assert(key_order()(sorted[i], sorted[j]));
    }
    assert(sorted.to_set() =~= dict.dom()) by {
        assert forall|key: Seq<char>| sorted.to_set().contains(key) implies dict.dom().contains(
            key,
        ) by {
            assert(sorted.contains(key));
            assert(laid.to_multiset().count(key) > 0);
            assert(laid.contains(key));
            assert(laid.to_set().contains(key));
        }
        assert forall|key: Seq<char>| dict.dom().contains(key) implies sorted.to_set().contains(
            key,
        ) by {
            assert(laid.to_set().contains(key));
            assert(laid.contains(key));
            assert(sorted.to_multiset().count(key) > 0);
            assert(sorted.contains(key));
        }
    }
    lemma_sorted_keys_is(dict, sorted);
}

/// The entries put in the ascending order of their keys, by insertion.
/// The result holds the same entries.
pub fn sort_entries(list: Vec<(String, usize)>) -> (sorted: Vec<(String, usize)>)
    ensures
        sorted@.to_multiset() == list@.to_multiset(),
        forall|i: int, j: int|
            0 <= i < j < sorted@.len() ==> text_le(
                (#[trigger] sorted@[i]).0@,
                (#[trigger] sorted@[j]).0@,
            ),
{
    broadcast use group_multiset_axioms;
    broadcast use group_to_multiset_ensures;

    let mut rest = list;
    let mut sorted: Vec<(String, usize)> = Vec::new();
    assert(sorted@.to_multiset().add(rest@.to_multiset()) =~= list@.to_multiset());
    while rest.len() > 0
        invariant
            sorted@.to_multiset().add(rest@.to_multiset()) == list@.to_multiset(),
            forall|i: int, j: int|
                0 <= i < j < sorted@.len() ==> text_le(
                    (#[trigger] sorted@[i]).0@,
                    (#[trigger] sorted@[j]).0@,
                ),
        decreases rest.len(),
    {
        let ghost rest_before = rest@;
        let ghost sorted_before = sorted@;
        let entry = rest.pop().unwrap();
        assert(rest_before =~= rest@.push(entry));
        let mut at: usize = 0;
        while at < sorted.len() && str_le(sorted[at].0.as_str(), entry.0.as_str())
            invariant
                at <= sorted.len(),
                sorted@ == sorted_before,
                forall|i: int| 0 <= i < at ==> text_le((#[trigger] sorted@[i]).0@, entry.0@),
            decreases sorted.len() - at,
        {
            at = at + 1;
        }
        proof {
            if at < sorted.len() {
                lemma_text_le_total(sorted@[at as int].0@, entry.0@);
                assert forall|j: int| at <= j < sorted@.len() implies text_le(
                    entry.0@,
                    (#[trigger] sorted@[j]).0@,
                ) by {
                    if j > at {
                        lemma_text_le_transitive(entry.0@, sorted@[at as int].0@, sorted@[j].0@);
                    }
                }
            }
        }
        sorted.insert(at, entry);
        proof {
            assert(sorted@ == sorted_before.insert(at as int, entry));
            to_multiset_insert(sorted_before, at as int, entry);
            to_multiset_build(rest@, entry);
            assert(sorted@.to_multiset() =~= sorted_before.to_multiset().insert(entry));
            assert(rest_before.to_multiset() =~= rest@.to_multiset().insert(entry));
            assert(sorted@.to_multiset().add(rest@.to_multiset()) =~= sorted_before.to_multiset().add(
                rest_before.to_multiset(),
            ));
            assert forall|i: int, j: int| 0 <= i < j < sorted@.len() implies text_le(
                (#[trigger] sorted@[i]).0@,
                (#[trigger] sorted@[j]).0@,
            ) by {
                if i < at && j > at {
                    assert(sorted@[i] == sorted_before[i]);
                    assert(sorted@[j] == sorted_before[j - 1]);
                } else if i < at && j < at {
                    assert(sorted@[i] == sorted_before[i]);
                    assert(sorted@[j] == sorted_before[j]);
                } else if i < at && j == at {
                    assert(sorted@[i] == sorted_before[i]);
                } else if i == at {
                    assert(sorted@[j] == sorted_before[j - 1]);
                } else {
                    assert(sorted@[i] == sorted_before[i - 1]);
                    assert(sorted@[j] == sorted_before[j - 1]);
                }
            }
        }
    }
    assert(rest@ =~= Seq::<(String, usize)>::empty());
    assert(sorted@.to_multiset().add(rest@.to_multiset()) =~= sorted@.to_multiset());
    sorted
}

/// The entries of a dictionary in the ascending order of their keys.
pub fn sorted_entries(dict: &Dict) -> (list: Vec<(String, usize)>)
    ensures
        keys_of(list@) == sorted_keys(entries(*dict)),
        entries(*dict).dom().finite(),
        list@.len() == entries(*dict).len(),
        forall|i: int|
            0 <= i < list@.len() ==> entries(*dict).contains_key(#[trigger] list@[i].0@) && entries(
                *dict,
            )[list@[i].0@] == list@[i].1,
{
    broadcast use group_multiset_axioms;
    broadcast use group_to_multiset_ensures;

    let raw_list = entries_list(dict);
    let ghost raw = raw_list;
    let list = sort_entries(raw_list);
    proof {
        let map = entries(*dict);
        let keys = keys_of(list@);
        assert(raw@.no_duplicates());
        raw@.lemma_multiset_has_no_duplicates();
        list@.lemma_multiset_has_no_duplicates_conv();
        assert forall|i: int| 0 <= i < list@.len() implies map.contains_key(
            #[trigger] list@[i].0@,
        ) && map[list@[i].0@] == list@[i].1 by {
            assert(list@.contains(list@[i]));
            assert(raw@.to_multiset().count(list@[i]) > 0);
            assert(raw@.contains(list@[i]));
            let p = choose|p: int| 0 <= p < raw@.len() && raw@[p] == list@[i];
            assert(map.contains_key(raw@[p].0@));
        }
        assert forall|i: int, j: int| 0 <= i < j < keys.len() implies text_le(
            #[trigger] keys[i],
            #[trigger] keys[j],
        ) && keys[i] != keys[j] by {
            assert(text_le(list@[i].0@, list@[j].0@));
            assert(list@.contains(list@[i]));
            assert(list@.contains(list@[j]));
            assert(raw@.to_multiset().count(list@[i]) > 0);
            assert(raw@.to_multiset().count(list@[j]) > 0);
            assert(raw@.contains(list@[i]));
            assert(raw@.contains(list@[j]));
            let p = choose|p: int| 0 <= p < raw@.len() && raw@[p] == list@[i];
            let q = choose|q: int| 0 <= q < raw@.len() && raw@[q] == list@[j];
            assert(list@[i] != list@[j]);
            if p < q {
                assert(raw@[p].0@ != raw@[q].0@);
            } else {
                assert(raw@[q].0@ != raw@[p].0@);
            }
        }
        assert(keys.to_set() =~= map.dom()) by {
            assert forall|key: Seq<char>| keys.to_set().contains(key) implies map.dom().contains(
                key,
            ) by {
                let i = choose|i: int| 0 <= i < keys.len() && keys[i] == key;
                assert(map.contains_key(list@[i].0@));
            }
            assert forall|key: Seq<char>| map.dom().contains(key) implies keys.to_set().contains(
                key,
            ) by {
                assert(map.contains_key(key));
                let p = choose|p: int| 0 <= p < raw@.len() && raw@[p].0@ == key;
                assert(raw@.contains(raw@[p]));
                assert(list@.to_multiset().count(raw@[p]) > 0);
                assert(list@.contains(raw@[p]));
                let i = choose|i: int| 0 <= i < list@.len() && list@[i] == raw@[p];
                assert(keys[i] == key);
            }
        }
        lemma_sorted_keys_is(map, keys);
    }
    list
}

} // verus!
