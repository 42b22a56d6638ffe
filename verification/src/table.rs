//! A map from names to values, kept as a list of entries.

use crate::ast::Ident;
use crate::ident::text_of;
use vstd::prelude::*;

verus! {

/// The map that a list of entries stands for: each entry binds its name,
/// and a later entry replaces an earlier one of the same name.
pub open spec fn entries_map<V: View>(entries: Seq<(Ident, V)>) -> Map<Seq<char>, V::V>
    decreases entries.len(),
{
    if entries.len() == 0 {
        Map::empty()
    } else {
        entries_map(entries.drop_last()).insert(text_of(entries.last().0), entries.last().1@)
    }
}

/// A finite map from names to values.
#[derive(Debug)]
pub struct NameMap<V> {
    entries: Vec<(Ident, V)>,
}

impl<V: View> View for NameMap<V> {
    type V = Map<Seq<char>, V::V>;

    closed spec fn view(&self) -> Map<Seq<char>, V::V> {
        entries_map(self.entries@)
    }
}

impl<V: View> NameMap<V> {
    /// How many times a name was bound in the map.
    pub closed spec fn insertions(&self) -> nat {
        self.entries@.len()
    }

    /// The map that binds nothing.
    pub fn new() -> (r: Self)
        ensures
            r@ == Map::<Seq<char>, V::V>::empty(),
            r.insertions() == 0,
    {
        NameMap { entries: Vec::new() }
    }

    /// How many times a name was bound in the map.
    pub fn len(&self) -> (n: usize)
        ensures
            n == self.insertions(),
    {
        self.entries.len()
    }

    /// The value that `name` is bound to.
    pub fn get(&self, name: &Ident) -> (r: Option<&V>)
        ensures
            match r {
                Some(value) => self@.contains_key(text_of(*name)) && self@[text_of(*name)]
                    == value@,
                None => !self@.contains_key(text_of(*name)),
            },
    {
        let mut i = self.entries.len();
        let ghost key = text_of(*name);
        assert(self.entries@.take(i as int) =~= self.entries@);
        while i > 0
            invariant
                i <= self.entries@.len(),
                key == text_of(*name),
                self@.contains_key(key) == entries_map(self.entries@.take(i as int)).contains_key(
                    key,
                ),
                self@.contains_key(key) ==> self@[key] == entries_map(
                    self.entries@.take(i as int),
                )[key],
            decreases i,
        {
            let ghost prefix = self.entries@.take(i as int);
            assert(prefix.drop_last() =~= self.entries@.take(i - 1));
            i -= 1;
            if self.entries[i].0 == *name {
                return Some(&self.entries[i].1);
            }
        }
        None
    }

    /// Whether `name` is bound.
    pub fn contains_key(&self, name: &Ident) -> (r: bool)
        ensures
            r == self@.contains_key(text_of(*name)),
    {
        self.get(name).is_some()
    }

    /// Binds `name` to `value`, in place of what it was bound to.
    pub fn insert(&mut self, name: Ident, value: V)
        ensures
            final(self)@ == old(self)@.insert(text_of(name), value@),
            final(self).insertions() == old(self).insertions() + 1,
    {
        self.entries.push((name, value));
        assert(self.entries@.drop_last() =~= old(self).entries@);
    }
}

} // verus!
