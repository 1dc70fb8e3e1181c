//! Names numbered in the order of their first appearance.

use crate::order::name_values;
use crate::text::chars_of;
use vstd::hash_map::StringHashMap;
use vstd::prelude::*;

verus! {

/// The index of `name` among `names`, if it is one of them.
pub open spec fn index_of(names: Seq<Seq<char>>, name: Seq<char>) -> Option<int> {
    if names.contains(name) {
        Some(choose|i: int| 0 <= i < names.len() && names[i] == name)
    } else {
        None
    }
}

/// Among names without duplicates, a name has one index.
pub proof fn lemma_index_of(names: Seq<Seq<char>>, i: int)
    requires
        names.no_duplicates(),
        0 <= i < names.len(),
    ensures
        index_of(names, names[i]) == Some(i),
{
    assert(names.contains(names[i]));
}

/// `names` with those of `more` that it lacks added at the end, in the
/// order of their first appearance.
pub open spec fn extended(names: Seq<Seq<char>>, more: Seq<Seq<char>>) -> Seq<Seq<char>>
    decreases more.len(),
{
    if more.len() == 0 {
        names
    } else {
        let front = extended(names, more.drop_last());
        if front.contains(more.last()) {
            front
        } else {
            front.push(more.last())
        }
    }
}

/// Extending keeps the names that were there at their indices, holds all
/// that was added, and holds no name twice if none was held twice.
pub proof fn lemma_extended(names: Seq<Seq<char>>, more: Seq<Seq<char>>)
    ensures
        names.len() <= extended(names, more).len(),
        forall|i: int| 0 <= i < names.len() ==> #[trigger] extended(names, more)[i] == names[i],
        forall|name: Seq<char>| #[trigger]
            extended(names, more).contains(name) <==> names.contains(name) || more.contains(name),
        names.no_duplicates() ==> extended(names, more).no_duplicates(),
    decreases more.len(),
{
    let all = extended(names, more);
    if more.len() > 0 {
        let front = extended(names, more.drop_last());
        lemma_extended(names, more.drop_last());
        assert forall|name: Seq<char>| #[trigger]
            all.contains(name) <==> names.contains(name) || more.contains(name) by {
            if more.contains(name) {
                let k = choose|k: int| 0 <= k < more.len() && more[k] == name;
                if k < more.len() - 1 {
                    assert(more.drop_last()[k] == name);
                    assert(more.drop_last().contains(name));
                }
            }
            if more.drop_last().contains(name) {
                let k = choose|k: int| 0 <= k < more.len() - 1 && more.drop_last()[k] == name;
                assert(more[k] == name);
            }
            assert(more[more.len() - 1] == more.last());
            if front.contains(name) {
                let k = choose|k: int| 0 <= k < front.len() && front[k] == name;
                assert(all[k] == name);
            }
            if all.contains(name) && !front.contains(name) {
                let k = choose|k: int| 0 <= k < all.len() && all[k] == name;
                if k < front.len() {
                    assert(front[k] == name);
                }
            }
            if !front.contains(more.last()) {
                assert(all[front.len() as int] == more.last());
            }
        }
        if names.no_duplicates() && !front.contains(more.last()) {
            assert forall|i: int, j: int|
                0 <= i < all.len() && 0 <= j < all.len() && i != j implies all[i] != all[j] by {
                if i < front.len() && j < front.len() {
                    assert(front[i] != front[j]);
                } else if i < front.len() {
                    assert(front.contains(front[i]));
                } else {
                    assert(front.contains(front[j]));
                }
            }
        }
    } else {
        assert forall|name: Seq<char>| #[trigger]
            all.contains(name) <==> names.contains(name) || more.contains(name) by {
            if more.contains(name) {
                let k = choose|k: int| 0 <= k < more.len() && more[k] == name;
            }
        }
    }
}

/// A set of names, each with a number: its index in the order of first
/// appearance.
pub struct Interner {
    names: Vec<String>,
    index: StringHashMap<usize>,
}

impl View for Interner {
    type V = Seq<Seq<char>>;

    /// The names, each at its number.
    closed spec fn view(&self) -> Seq<Seq<char>> {
        Seq::new(self.names@.len(), |i: int| self.names@[i]@)
    }
}

impl Interner {
    /// No name is held twice, and the index knows the number of each.
    pub closed spec fn wf(&self) -> bool {
        &&& self@.no_duplicates()
        &&& forall|name: Seq<char>| #[trigger]
            self.index@.contains_key(name) <==> self@.contains(name)
        &&& forall|i: int|
            0 <= i < self@.len() ==> self.index@[#[trigger] self@[i]] == i
    }

    /// The names of a well-formed interner are distinct.
    pub proof fn lemma_distinct(&self)
        requires
            self.wf(),
        ensures
            self@.no_duplicates(),
    {
    }

    /// No names.
    pub fn new() -> (names: Interner)
        ensures
            names.wf(),
            names@ == Seq::<Seq<char>>::empty(),
    {
        let names = Interner { names: Vec::new(), index: StringHashMap::new() };
        assert(names@ =~= Seq::<Seq<char>>::empty());
        names
    }

    /// How many names there are.
    pub fn len(&self) -> (n: usize)
        ensures
            n == self@.len(),
    {
        self.names.len()
    }

    /// The name with the number `id`.
    pub fn name(&self, id: usize) -> (name: &String)
        requires
            id < self@.len(),
        ensures
            name@ == self@[id as int],
    {
        &self.names[id]
    }

    /// The names as characters, each at its number.
    pub fn chars(&self) -> (names: Vec<Vec<char>>)
        ensures
            name_values(names@) == self@,
    {
        let mut names: Vec<Vec<char>> = Vec::new();
        let mut i: usize = 0;
        while i < self.names.len()
            invariant
                i <= self.names.len(),
                names@.len() == i,
                forall|k: int| 0 <= k < i ==> (#[trigger] names@[k])@ == self.names@[k]@,
            decreases self.names.len() - i,
        {
            names.push(chars_of(self.names[i].as_str()));
            i += 1;
        }
        assert(name_values(names@) =~= self@);
        names
    }

    /// The number of `name`, if it has one.
    pub fn get(&self, name: &str) -> (id: Option<usize>)
        requires
            self.wf(),
        ensures
            match id {
                Some(i) => i < self@.len() && self@[i as int] == name@,
                None => !self@.contains(name@),
            },
            id == match index_of(self@, name@) {
                Some(i) => Some(i as usize),
                None => None,
            },
    {
        match self.index.get(name) {
            Some(i) => {
                proof {
                    let k = choose|k: int| 0 <= k < self@.len() && self@[k] == name@;
                    assert(self.index@[self@[k]] == k);
                    lemma_index_of(self@, k);
                }
                Some(*i)
            },
            None => None,
        }
    }

    /// The number of `name`, which is given the next free number if it has
    /// none yet.
    pub fn intern(&mut self, name: &str) -> (id: usize)
        requires
            old(self).wf(),
        ensures
            final(self).wf(),
            id < final(self)@.len(),
            final(self)@[id as int] == name@,
            match index_of(old(self)@, name@) {
                Some(i) => id == i && final(self)@ == old(self)@,
                None => id == old(self)@.len() && final(self)@ == old(self)@.push(name@),
            },
    {
        match self.get(name) {
            Some(id) => id,
            None => {
                let id = self.names.len();
                let ghost before = self@;
                let ghost text = name@;
                self.index.insert(name.to_owned(), id);
                self.names.push(name.to_owned());
                proof {
                    assert(self@ =~= before.push(text));
                    assert forall|n: Seq<char>| #[trigger]
                        self.index@.contains_key(n) <==> self@.contains(n) by {
                        if before.contains(n) {
                            let k = choose|k: int| 0 <= k < before.len() && before[k] == n;
                            assert(self@[k] == n);
                        }
                        if n == text {
                            assert(self@[id as int] == n);
                        }
                        if self@.contains(n) {
                            let k = choose|k: int| 0 <= k < self@.len() && self@[k] == n;
                            if k < before.len() {
                                assert(before[k] == n);
                            }
                        }
                    }
                    assert forall|i: int| 0 <= i < self@.len() implies self.index@[#[trigger] self@[i]]
                        == i by {
                        if i < before.len() {
                            assert(before[i] == self@[i]);
                            assert(before.contains(before[i]));
                        }
                    }
                    assert forall|i: int, j: int|
                        0 <= i < self@.len() && 0 <= j < self@.len() && i != j implies self@[i]
                        != self@[j] by {
                        if i < before.len() && j < before.len() {
                            assert(before[i] != before[j]);
                        } else if i < before.len() {
                            assert(before.contains(before[i]));
                        } else if j < before.len() {
                            assert(before.contains(before[j]));
                        }
                    }
                }
                id
            },
        }
    }
}

} // verus!
