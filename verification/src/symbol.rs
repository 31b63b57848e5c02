//! Interned names: a table that gives each distinct name one symbol.

use vstd::hash_map::StringHashMap;
use vstd::prelude::*;
use vstd::string::*;

verus! {

/// An interned name: the position of the name in the table that made it.
#[derive(Clone, Copy, Debug, PartialEq, Eq, Hash, Structural)]
pub struct Symbol(pub usize);

/// The table of interned names. It only grows: a name, once interned, keeps
/// its symbol for as long as the table lives.
pub struct SymbolTable {
    names: Vec<String>,
    ids: StringHashMap<usize>,
}

/// Interning `name` into a table that holds `names`: the symbol's number and
/// the names afterwards. A name already there keeps its place; a new one is
/// put at the end.
pub open spec fn intern_model(names: Seq<Seq<char>>, name: Seq<char>) -> (usize, Seq<Seq<char>>) {
    if names.contains(name) {
        (names.index_of(name) as usize, names)
    } else {
        (names.len() as usize, names.push(name))
    }
}

impl View for SymbolTable {
    type V = Seq<Seq<char>>;

    /// The interned names, each at the position that is its symbol.
    closed spec fn view(&self) -> Seq<Seq<char>> {
        self.names@.map_values(|s: String| s@)
    }
}

impl SymbolTable {
    /// The index from names to symbols mirrors the list of names.
    pub closed spec fn indexed(&self) -> bool {
        &&& self.ids@.dom() =~= self@.to_set()
        &&& forall|i: int| 0 <= i < self@.len() ==> #[trigger] self.ids@[self@[i]] == i
    }

    /// The table is consistent and holds no name twice.
    pub open spec fn wf(&self) -> bool {
        &&& self.indexed()
        &&& self@.no_duplicates()
    }

    /// The symbol was made by this table.
    pub open spec fn knows(&self, symbol: Symbol) -> bool {
        symbol.0 < self@.len()
    }

    /// An empty table.
    pub fn new() -> (table: SymbolTable)
        ensures
            table.wf(),
            table@ == Seq::<Seq<char>>::empty(),
    {
        let table = SymbolTable { names: Vec::new(), ids: StringHashMap::new() };
        assert(table@ =~= Seq::<Seq<char>>::empty());
        table
    }

    /// The number of names interned so far.
    pub fn len(&self) -> (n: usize)
        ensures
            n == self@.len(),
    {
        self.names.len()
    }

    /// The symbol of `name`. The same name gives the same symbol on every
    /// call; a name not seen before gets the next free symbol.
    pub fn intern(&mut self, name: &str) -> (symbol: Symbol)
        requires
            old(self).wf(),
        ensures
            final(self).wf(),
            (symbol.0, final(self)@) == intern_model(old(self)@, name@),
            final(self).knows(symbol),
            final(self)@[symbol.0 as int] == name@,
    {
        let found = match self.ids.get(name) {
            Some(id) => Some(*id),
            None => None,
        };
        match found {
            Some(id) => {
                proof {
                    let names = self@;
                    assert(names.to_set().contains(name@));
                    let j = names.index_of(name@);
                    assert(names[j] == name@);
                    assert(self.ids@[names[j]] == j);
                }
                Symbol(id)
            },
            None => {
                let id = self.names.len();
                let ghost before = self@;
                assert(!before.contains(name@)) by {
                    if before.contains(name@) {
                        assert(before.to_set().contains(name@));
                    }
                }
                self.names.push(String::from_str(name));
                self.ids.insert(String::from_str(name), id);
                proof {
                    assert(self@ =~= before.push(name@));
                    assert(self@.to_set() =~= before.to_set().insert(name@)) by {
                        assert forall|s: Seq<char>| self@.to_set().contains(s) implies before.to_set().insert(
                            name@,
                        ).contains(s) by {
                            let i = choose|i: int| 0 <= i < self@.len() && self@[i] == s;
                            if i < before.len() {
                                assert(before[i] == s);
                            }
                        }
                        assert forall|s: Seq<char>| before.to_set().insert(name@).contains(
                            s,
                        ) implies self@.to_set().contains(s) by {
                            if s == name@ {
                                assert(self@[id as int] == s);
                            } else {
                                let i = choose|i: int| 0 <= i < before.len() && before[i] == s;
                                assert(self@[i] == s);
                            }
                        }
                    }
                    assert forall|i: int| 0 <= i < self@.len() implies #[trigger] self.ids@[self@[i]]
                        == i by {
                        if i < before.len() {
                            assert(before[i] != name@);
                        }
                    }
                    assert(self@.no_duplicates()) by {
                        assert forall|i: int, j: int|
                            0 <= i < self@.len() && 0 <= j < self@.len() && i != j implies self@[i]
                            != self@[j] by {
                            if i < before.len() && j < before.len() {
                                assert(before[i] != before[j]);
                            } else if i < before.len() {
                                assert(before[i] != name@);
                            } else {
                                assert(before[j] != name@);
                            }
                        }
                    }
                }
                Symbol(id)
            },
        }
    }

    /// The name of a symbol that this table made.
    pub fn to_str(&self, symbol: Symbol) -> (name: &str)
        requires
            self.knows(symbol),
        ensures
            name@ == self@[symbol.0 as int],
    {
        self.names[symbol.0].as_str()
    }

    /// The name of a symbol, or `None` for a symbol that this table did
    /// not make.
    pub fn resolve(&self, symbol: Symbol) -> (name: Option<&str>)
        ensures
            match name {
                Some(text) => self.knows(symbol) && text@ == self@[symbol.0 as int],
                None => !self.knows(symbol),
            },
    {
        if symbol.0 < self.names.len() {
            Some(self.names[symbol.0].as_str())
        } else {
            None
        }
    }
}

/// Interning is idempotent: the name just interned gets the same symbol
/// again, and the second call leaves the table as it is.
pub proof fn lemma_intern_idempotent(names: Seq<Seq<char>>, name: Seq<char>)
    requires
        names.no_duplicates(),
        names.len() < usize::MAX,
    ensures
        intern_model(intern_model(names, name).1, name) == intern_model(names, name),
        intern_model(names, name).1.no_duplicates(),
{
    let (id, after) = intern_model(names, name);
    if names.contains(name) {
        assert(after == names);
    } else {
        assert(after[names.len() as int] == name);
        assert(after.contains(name));
        assert(after.no_duplicates()) by {
            assert forall|i: int, j: int|
                0 <= i < after.len() && 0 <= j < after.len() && i != j implies after[i]
                != after[j] by {
                if i < names.len() && j < names.len() {
                } else if i < names.len() {
                    assert(names[i] != name);
                } else {
                    assert(names[j] != name);
                }
            }
        }
        let k = after.index_of(name);
        assert(after[k] == name);
        assert(k == names.len());
    }
}

/// Symbols and names correspond one to one: two names get the same symbol
/// exactly when they are the same name, whichever is interned first.
pub proof fn lemma_intern_injective(names: Seq<Seq<char>>, a: Seq<char>, b: Seq<char>)
    requires
        names.no_duplicates(),
        names.len() + 1 < usize::MAX,
    ensures
        ({
            let (first, after) = intern_model(names, a);
            let (second, _) = intern_model(after, b);
            first == second <==> a == b
        }),
{
    let (first, after) = intern_model(names, a);
    lemma_intern_idempotent(names, a);
    let (second, last) = intern_model(after, b);
    assert(after[first as int] == a) by {
        if names.contains(a) {
            assert(names[names.index_of(a)] == a);
        }
    }
    if after.contains(b) {
        assert(after[after.index_of(b)] == b);
    }
}

/// Interning keeps every earlier symbol: the names before are a prefix of
/// the names after.
pub proof fn lemma_intern_extends(names: Seq<Seq<char>>, name: Seq<char>)
    ensures
        names.is_prefix_of(intern_model(names, name).1),
{
    let after = intern_model(names, name).1;
    if !names.contains(name) {
        assert(after.subrange(0, names.len() as int) =~= names);
    } else {
        assert(after.subrange(0, names.len() as int) =~= names);
    }
}

} // verus!
