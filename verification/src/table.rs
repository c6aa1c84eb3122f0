//! Identifier allocation and identifier-keyed tables.
//!
//! A [`MainTable`] owns values and names each one with an [`Id`]; a
//! [`SubTable`] attaches further data to identifiers that a main table gave out.

use std::collections::HashMap;
use std::marker::PhantomData;
use vstd::prelude::*;

verus! {

broadcast use vstd::std_specs::hash::group_hash_axioms;

/// The name of a value of type `T` in a table.
#[derive(Debug, Hash)]
pub struct Id<T> {
    id: usize,
    phantom: PhantomData<T>,
}

impl<T> Id<T> {
    /// The number behind the identifier.
    pub closed spec fn value(&self) -> nat {
        self.id as nat
    }

    /// Two identifiers with the same number are the same identifier.
    pub proof fn lemma_value_injective(a: Id<T>, b: Id<T>)
        requires
            a.value() == b.value(),
        ensures
            a == b,
    {
    }
}

impl<T> Clone for Id<T> {
    fn clone(&self) -> (r: Self)
        ensures
            r == *self,
    {
        Id::<T> { id: self.id, phantom: PhantomData }
    }
}

impl<T> Copy for Id<T> {

}

impl<T> PartialEq for Id<T> {
    fn eq(&self, other: &Self) -> (r: bool) {
        self.id == other.id
    }
}

impl<T> vstd::std_specs::cmp::PartialEqSpecImpl for Id<T> {
    open spec fn obeys_eq_spec() -> bool {
        true
    }

    open spec fn eq_spec(&self, other: &Self) -> bool {
        self.value() == other.value()
    }
}

impl<T> Eq for Id<T> {

}

/// Hands out identifiers in increasing order, starting at 1.
#[derive(Debug)]
pub struct IdManager<T> {
    next_id: usize,
    phantom: PhantomData<T>,
}

impl<T> Clone for IdManager<T> {
    fn clone(&self) -> (r: Self)
        ensures
            r == *self,
    {
        IdManager::<T> { next_id: self.next_id, phantom: PhantomData }
    }
}

impl<T> IdManager<T> {
    /// The number of the identifier that the next call of `create` returns.
    pub closed spec fn next(&self) -> nat {
        self.next_id as nat
    }

    pub fn new() -> (r: IdManager<T>)
        ensures
            r.next() == 1,
    {
        IdManager::<T> { next_id: 1, phantom: PhantomData }
    }

    /// Returns the current identifier and moves on to the next one.
    pub fn create(&mut self) -> (r: Id<T>)
        requires
            old(self).next() < usize::MAX,
        ensures
            r.value() == old(self).next(),
            final(self).next() == old(self).next() + 1,
    {
        let res = Id::<T> { id: self.next_id, phantom: PhantomData };
        self.next_id += 1;
        res
    }
}

/// A table that owns its values and numbers them 1, 2, 3, ... as they come.
#[derive(Debug)]
pub struct MainTable<T> {
    map: HashMap<usize, T>,
}

impl<T: Clone> Clone for MainTable<T> {
    fn clone(&self) -> (r: Self)
        ensures
            r@ == self@,
            r.len() == self.len(),
            r.wf() == self.wf(),
    {
        let r = MainTable::<T> { map: self.map.clone() };
        assert(r@ =~= self@);
        r
    }
}

impl<T> MainTable<T> {
    /// The table as a map from identifier numbers to values.
    pub closed spec fn view(&self) -> Map<nat, T> {
        Map::new(
            |k: nat| k <= usize::MAX && self.map@.contains_key(k as usize),
            |k: nat| self.map@[k as usize],
        )
    }

    /// The identifiers in use are exactly 1, 2, ..., up to the number of
    /// values stored.
    pub closed spec fn wf(&self) -> bool {
        forall|k: usize| self.map@.contains_key(k) <==> 1 <= k <= self.map@.len()
    }

    /// The number of values stored.
    pub closed spec fn len(&self) -> nat {
        self.map@.len()
    }

    /// In a well-formed table, the identifiers in use are 1 up to `len`.
    pub proof fn lemma_dom(&self)
        requires
            self.wf(),
        ensures
            forall|k: nat| self@.contains_key(k) <==> 1 <= k <= self.len(),
            self.len() <= usize::MAX,
    {
        assert(self.map.len() == self.map@.len());
        assert forall|k: nat| self@.contains_key(k) <==> 1 <= k <= self.len() by {
            if k <= usize::MAX {
                assert(self.map@.contains_key(k as usize) <==> 1 <= k as usize <= self.map@.len());
            }
        }
    }

    pub fn new() -> (r: MainTable<T>)
        ensures
            r.wf(),
            r@ == Map::<nat, T>::empty(),
            r.len() == 0,
    {
        let r = MainTable::<T> { map: HashMap::new() };
        assert(r@ =~= Map::<nat, T>::empty());
        r
    }

    /// Stores `x` under the next unused identifier and returns that identifier.
    pub fn insert(&mut self, x: T) -> (id: Id<T>)
        requires
            old(self).wf(),
            old(self).len() < usize::MAX,
        ensures
            final(self).wf(),
            id.value() == old(self).len() + 1,
            !old(self)@.contains_key(id.value()),
            final(self)@ == old(self)@.insert(id.value(), x),
            final(self).len() == old(self).len() + 1,
    {
        let n = self.map.len();
        let id = Id::<T> { id: n + 1, phantom: PhantomData };
        self.map.insert(n + 1, x);
        proof {
            let key: usize = (n + 1) as usize;
            assert(!old(self).map@.contains_key(key));
            assert(self.map@.len() == n + 1);
            assert forall|k: usize| self.map@.contains_key(k) <==> 1 <= k <= self.map@.len() by {
                assert(old(self).map@.contains_key(k) <==> 1 <= k <= n);
            }
            assert(self@ =~= old(self)@.insert(id.value(), x));
        }
        id
    }

    /// The value stored under `id`, if there is one.
    pub fn get(&self, id: Id<T>) -> (r: Option<&T>)
        ensures
            match r {
                Some(v) => self@.contains_key(id.value()) && *v == self@[id.value()],
                None => !self@.contains_key(id.value()),
            },
    {
        self.map.get(&id.id)
    }
}

/// A table that attaches values of type `U` to identifiers of values of type `T`.
#[derive(Debug)]
pub struct SubTable<T, U> {
    map: HashMap<usize, U>,
    phantom: PhantomData<T>,
}

impl<T, U: Clone> Clone for SubTable<T, U> {
    fn clone(&self) -> (r: Self)
        ensures
            r@ == self@,
    {
        let r = SubTable::<T, U> { map: self.map.clone(), phantom: PhantomData };
        assert(r@ =~= self@);
        r
    }
}

impl<T, U> SubTable<T, U> {
    /// The table as a map from identifier numbers to values.
    pub closed spec fn view(&self) -> Map<nat, U> {
        Map::new(
            |k: nat| k <= usize::MAX && self.map@.contains_key(k as usize),
            |k: nat| self.map@[k as usize],
        )
    }

    pub fn new() -> (r: SubTable<T, U>)
        ensures
            r@ == Map::<nat, U>::empty(),
    {
        let r = SubTable::<T, U> { map: HashMap::new(), phantom: PhantomData };
        assert(r@ =~= Map::<nat, U>::empty());
        r
    }

    /// Attaches `x` to `id`, replacing what was attached to it before.
    pub fn insert(&mut self, id: Id<T>, x: U)
        ensures
            final(self)@ == old(self)@.insert(id.value(), x),
    {
        self.map.insert(id.id, x);
        assert(self@ =~= old(self)@.insert(id.value(), x));
    }

    /// The value attached to `id`, if there is one.
    pub fn get(&self, id: Id<T>) -> (r: Option<&U>)
        ensures
            match r {
                Some(v) => self@.contains_key(id.value()) && *v == self@[id.value()],
                None => !self@.contains_key(id.value()),
            },
    {
        self.map.get(&id.id)
    }
}

} // verus!
