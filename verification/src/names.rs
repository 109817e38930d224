//! Maps from names to variables, kept in the order the names were added.

use vstd::prelude::*;
use crate::ast::Var;
use crate::text::{Name, name_chars, name_clone, name_eq};

verus! {

/// The abstract value of a map: its entries in the order the names were added.
pub type Entries = Seq<(Seq<char>, u16)>;

/// The position of the first entry for `k`, or -1.
pub open spec fn key_index(s: Entries, k: Seq<char>) -> int
    decreases s.len(),
{
    if s.len() == 0 {
        -1
    } else {
        let i = key_index(s.drop_last(), k);
        if i >= 0 {
            i
        } else if s.last().0 == k {
            s.len() - 1
        } else {
            -1
        }
    }
}

/// The variable that `k` maps to.
pub open spec fn assoc_get(s: Entries, k: Seq<char>) -> Option<u16> {
    let i = key_index(s, k);
    if i >= 0 {
        Some(s[i].1)
    } else {
        None
    }
}

/// `s` with `k` mapped to `v`: the entry for `k` is replaced, or a new one is
/// added at the end.
pub open spec fn assoc_insert(s: Entries, k: Seq<char>, v: u16) -> Entries {
    let i = key_index(s, k);
    if i >= 0 {
        s.update(i, (k, v))
    } else {
        s.push((k, v))
    }
}

/// The names that `s` maps.
pub open spec fn assoc_keys(s: Entries) -> Seq<Seq<char>> {
    s.map_values(|e: (Seq<char>, u16)| e.0)
}

/// `key_index` finds the first entry for `k`.
pub proof fn lemma_key_index(s: Entries, k: Seq<char>)
    ensures
        -1 <= key_index(s, k) < s.len(),
        key_index(s, k) >= 0 ==> s[key_index(s, k)].0 == k,
        forall|j: int| 0 <= j < s.len() && (key_index(s, k) < 0 || j < key_index(s, k)) ==> #[trigger] s[j].0 != k,
    decreases s.len(),
{
    if s.len() > 0 {
        let t = s.drop_last();
        lemma_key_index(t, k);
        assert forall|j: int|
            0 <= j < s.len() && (key_index(s, k) < 0 || j < key_index(s, k)) implies #[trigger] s[j].0
            != k by {
            if j < s.len() - 1 {
                assert(t[j] == s[j]);
            }
        }
    }
}

/// A read after a write: the name written maps to the variable written, and
/// every other name maps to what it mapped to before.
pub proof fn law_get_after_insert(s: Entries, k: Seq<char>, v: u16, other: Seq<char>)
    ensures
        assoc_get(assoc_insert(s, k, v), k) == Some(v),
        other != k ==> assoc_get(assoc_insert(s, k, v), other) == assoc_get(s, other),
{
    lemma_key_index(s, k);
    lemma_key_index(s, other);
    let r = assoc_insert(s, k, v);
    lemma_key_index(r, k);
    lemma_key_index(r, other);
    let i = key_index(s, k);
    let pos = if i >= 0 { i } else { s.len() as int };
    assert(r[pos] == (k, v));
    assert(r[pos].0 == k);
    assert forall|j: int| 0 <= j < r.len() && j != pos implies j < s.len() && #[trigger] r[j] == s[j] by {}
    let kr = key_index(r, k);
    if kr != pos {
        assert(kr < pos);
        assert(r[kr] == s[kr]);
    }
    if other != k {
        let ks = key_index(s, other);
        let ko = key_index(r, other);
        if ks >= 0 {
            assert(ks != pos);
            assert(r[ks] == s[ks]);
            assert(r[ks].0 == other);
            if ko != ks {
                assert(0 <= ko < ks);
                assert(r[ko] == s[ko]);
            }
        } else if ko >= 0 {
            assert(ko != pos);
            assert(r[ko] == s[ko]);
        }
    }
}

/// A map from names to variables.
pub struct NameMap {
    entries: Vec<(Name, Var)>,
}

impl View for NameMap {
    type V = Entries;

    closed spec fn view(&self) -> Entries {
        self.entries@.map_values(|e: (Name, Var)| (name_chars(e.0), e.1.0))
    }
}

impl NameMap {
    /// An empty map.
    pub fn new() -> (res: NameMap)
        ensures
            res@ == Seq::<(Seq<char>, u16)>::empty(),
    {
        let res = NameMap { entries: Vec::new() };
        assert(res@ =~= Seq::<(Seq<char>, u16)>::empty());
        res
    }

    /// The number of names mapped.
    pub fn len(&self) -> (res: usize)
        ensures
            res == self@.len(),
    {
        self.entries.len()
    }

    /// The position of the entry for `name`, if there is one.
    fn index_of(&self, name: &Name) -> (res: Option<usize>)
        ensures
            match res {
                Some(i) => key_index(self@, name_chars(*name)) == i,
                None => key_index(self@, name_chars(*name)) < 0,
            },
    {
        proof {
            lemma_key_index(self@, name_chars(*name));
        }
        let mut i: usize = 0;
        while i < self.entries.len()
            invariant
                i <= self.entries.len(),
                self@.len() == self.entries.len(),
                forall|j: int| 0 <= j < i ==> #[trigger] self@[j].0 != name_chars(*name),
                forall|j: int| 0 <= j < self@.len() ==> #[trigger] self@[j] == (name_chars(self.entries@[j].0), self.entries@[j].1.0),
            decreases self.entries.len() - i,
        {
            if name_eq(&self.entries[i].0, name) {
                proof {
                    lemma_key_index(self@, name_chars(*name));
                    assert(self@[i as int].0 == name_chars(*name));
                    let ki = key_index(self@, name_chars(*name));
                    if ki < 0 || ki > i {
                        assert(self@[i as int].0 != name_chars(*name));
                    }
                    if 0 <= ki < i {
                        assert(self@[ki].0 != name_chars(*name));
                    }
                }
                return Some(i);
            }
            i += 1;
        }
        proof {
            lemma_key_index(self@, name_chars(*name));
        }
        None
    }

    /// The variable that `name` maps to.
    pub fn get(&self, name: &Name) -> (res: Option<Var>)
        ensures
            match res {
                Some(v) => assoc_get(self@, name_chars(*name)) == Some(v.0),
                None => assoc_get(self@, name_chars(*name)) is None,
            },
    {
        proof {
            lemma_key_index(self@, name_chars(*name));
        }
        match self.index_of(name) {
            Some(i) => Some(self.entries[i].1),
            None => None,
        }
    }

    /// Maps `name` to `var`.
    pub fn insert(&mut self, name: Name, var: Var)
        ensures
            final(self)@ == assoc_insert(old(self)@, name_chars(name), var.0),
    {
        proof {
            lemma_key_index(self@, name_chars(name));
        }
        match self.index_of(&name) {
            Some(i) => {
                self.entries.set(i, (name, var));
                assert(self@ =~= assoc_insert(old(self)@, name_chars(name), var.0));
            },
            None => {
                self.entries.push((name, var));
                assert(self@ =~= assoc_insert(old(self)@, name_chars(name), var.0));
            },
        }
    }

    /// A copy of the name of entry `i`.
    pub fn name_at(&self, i: usize) -> (res: Name)
        requires
            i < self@.len(),
        ensures
            name_chars(res) == self@[i as int].0,
    {
        name_clone(&self.entries[i].0)
    }

    /// The variable of entry `i`.
    pub fn var_at(&self, i: usize) -> (res: Var)
        requires
            i < self@.len(),
        ensures
            res.0 == self@[i as int].1,
    {
        self.entries[i].1
    }
}

} // verus!
