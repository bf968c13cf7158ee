//! A symbol table: a finite map from names to numbers, in which a later entry
//! for a name replaces an earlier one.

use vstd::prelude::*;

verus! {

/// What the entries say of `key`: the number of the last entry under that name.
pub open spec fn lookup(entries: Seq<(Seq<char>, usize)>, key: Seq<char>) -> Option<usize>
    decreases entries.len(),
{
    if entries.len() == 0 {
        None
    } else if entries.last().0 == key {
        Some(entries.last().1)
    } else {
        lookup(entries.drop_last(), key)
    }
}

/// The map that the entries stand for.
pub open spec fn as_map(entries: Seq<(Seq<char>, usize)>) -> Map<Seq<char>, usize> {
    Map::new(
        |key: Seq<char>| lookup(entries, key) is Some,
        |key: Seq<char>| lookup(entries, key)->0,
    )
}

/// The entries say something of a name exactly when one of them bears it.
pub proof fn lemma_lookup(entries: Seq<(Seq<char>, usize)>, key: Seq<char>)
    ensures
        lookup(entries, key) is Some <==> exists|k: int|
            0 <= k < entries.len() && entries[k].0 == key,
    decreases entries.len(),
{
    if entries.len() > 0 {
        let shorter = entries.drop_last();
        lemma_lookup(shorter, key);
        if entries.last().0 == key {
            assert(entries[entries.len() - 1].0 == key);
        } else {
            if lookup(shorter, key) is Some {
                let k = choose|k: int| 0 <= k < shorter.len() && shorter[k].0 == key;
                assert(entries[k].0 == key);
            }
            if exists|k: int| 0 <= k < entries.len() && entries[k].0 == key {
                let k = choose|k: int| 0 <= k < entries.len() && entries[k].0 == key;
                assert(shorter[k].0 == key);
            }
        }
    }
}

/// A map from names to numbers.
#[derive(Debug)]
pub struct Table {
    entries: Vec<(String, usize)>,
}

impl View for Table {
    type V = Map<Seq<char>, usize>;

    closed spec fn view(&self) -> Map<Seq<char>, usize> {
        as_map(self.pairs())
    }
}

impl Table {
    /// The entries in the order in which they were made.
    pub closed spec fn pairs(&self) -> Seq<(Seq<char>, usize)> {
        Seq::new(self.entries@.len(), |i: int| (self.entries@[i].0@, self.entries@[i].1))
    }

    /// The empty table.
    pub fn new() -> (table: Self)
        ensures
            table@ == Map::<Seq<char>, usize>::empty(),
    {
        let table = Table { entries: Vec::new() };
        assert(table@ =~= Map::<Seq<char>, usize>::empty());
        table
    }

    /// Binds `key` to `value`, in place of what it was bound to before.
    pub fn insert(&mut self, key: String, value: usize)
        ensures
            final(self)@ == old(self)@.insert(key@, value),
    {
        let ghost before = self.pairs();
        self.entries.push((key, value));
        proof {
            let after = self.pairs();
            assert(after.drop_last() =~= before);
            assert(after.last() == (key@, value));
            assert(as_map(after) =~= as_map(before).insert(key@, value));
        }
    }

    /// The number that `key` is bound to, if it is bound.
    pub fn get(&self, key: &String) -> (value: Option<usize>)
        ensures
            value == if self@.contains_key(key@) {
                Some(self@[key@])
            } else {
                None
            },
    {
        let mut i: usize = self.entries.len();
        assert(self.pairs().take(i as int) =~= self.pairs());
        while i > 0
            invariant
                i <= self.entries.len(),
                lookup(self.pairs(), key@) == lookup(self.pairs().take(i as int), key@),
            decreases i,
        {
            i -= 1;
            proof {
                let prefix = self.pairs().take(i + 1);
                assert(prefix.drop_last() =~= self.pairs().take(i as int));
                assert(prefix.last() == self.pairs()[i as int]);
            }
            if self.entries[i].0 == *key {
                return Some(self.entries[i].1);
            }
        }
        assert(self.pairs().take(0).len() == 0);
        None
    }

    /// The names that the table binds; a name that was bound more than once comes
    /// more than once.
    pub fn keys(&self) -> (names: Vec<String>)
        ensures
            forall|key: Seq<char>|
                crate::text::views(names@).contains(key) <==> #[trigger] self@.contains_key(key),
    {
        let mut names: Vec<String> = Vec::new();
        let mut i: usize = 0;
        while i < self.entries.len()
            invariant
                i <= self.entries.len(),
                names@.len() == i,
                forall|k: int| 0 <= k < i ==> names@[k]@ == self.pairs()[k].0,
            decreases self.entries.len() - i,
        {
            names.push(self.entries[i].0.clone());
            i += 1;
        }
        proof {
            let listed = crate::text::views(names@);
            assert forall|key: Seq<char>| listed.contains(key) <==> #[trigger] self@.contains_key(
                key,
            ) by {
                lemma_lookup(self.pairs(), key);
                if listed.contains(key) {
                    let k = choose|k: int| 0 <= k < listed.len() && listed[k] == key;
                    assert(self.pairs()[k].0 == key);
                }
                if self@.contains_key(key) {
                    let k = choose|k: int| 0 <= k < self.pairs().len() && self.pairs()[k].0 == key;
                    assert(listed[k] == key);
                }
            }
        }
        names
    }

    /// Whether `key` is bound.
    pub fn contains_key(&self, key: &String) -> (b: bool)
        ensures
            b == self@.contains_key(key@),
    {
        self.get(key).is_some()
    }
}

} // verus!
