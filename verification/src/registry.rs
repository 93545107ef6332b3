//! The live connections of a socket, kept so that closing it can reach them.

use std::collections::HashMap;
use vstd::prelude::*;
use vstd::std_specs::hash::group_hash_axioms;

verus! {

broadcast use group_hash_axioms;

/// Live connections, each under a number.
pub struct Registry<T> {
    entries: HashMap<u64, T>,
    next: u64,
}

impl<T> View for Registry<T> {
    type V = Map<u64, T>;

    closed spec fn view(&self) -> Map<u64, T> {
        self.entries@
    }
}

impl<T> Registry<T> {
    /// The number that the next connection gets.
    pub closed spec fn next(self) -> u64 {
        self.next
    }

    pub fn new() -> (r: Self)
        ensures
            r@ == Map::<u64, T>::empty(),
            r.next() == 0,
    {
        Registry { entries: HashMap::new(), next: 0 }
    }

    /// Takes in a connection, and returns its number.
    pub fn register(&mut self, entry: T) -> (r: u64)
        ensures
            r == old(self).next(),
            final(self)@ == old(self)@.insert(r, entry),
            final(self).next() == (if old(self).next() == u64::MAX {
                0
            } else {
                (old(self).next() + 1) as u64
            }),
    {
        let id: u64 = self.next;
        self.next = self.next.wrapping_add(1);
        self.entries.insert(id, entry);
        id
    }

    /// Lets go of a connection.
    pub fn deregister(&mut self, id: u64)
        ensures
            final(self)@ == old(self)@.remove(id),
            final(self).next() == old(self).next(),
    {
        self.entries.remove(&id);
        assert(self@ =~= old(self)@.remove(id));
    }

    /// The connection under a number.
    pub fn get(&self, id: u64) -> (r: Option<&T>)
        ensures
            match r {
                Some(t) => self@.contains_key(id) && *t == self@[id],
                None => !self@.contains_key(id),
            },
    {
        self.entries.get(&id)
    }

    /// The numbers of all the connections, each once.
    pub fn ids(&self) -> (r: Vec<u64>)
        ensures
            r@.no_duplicates(),
            forall|id: u64| r@.contains(id) <==> self@.contains_key(id),
    {
        let mut out: Vec<u64> = Vec::new();
        for k in it: self.entries.keys()
            invariant
                out@ == it.seq().unref().take(it.index() as int),
                it.seq().no_duplicates(),
                it.seq().unref().to_set() == self.entries@.dom(),
                it.index() == it.seq().len() ==> out@ == it.seq().unref(),
        {
            out.push(*k);
            assert(out@ =~= it.seq().unref().take(it.index() as int + 1));
        }
        assert(out@.to_set() == self.entries@.dom());
        assert forall|id: u64| out@.contains(id) <==> self@.contains_key(id) by {
            assert(out@.to_set().contains(id) == self.entries@.dom().contains(id));
        }
        out
    }
}

} // verus!
