//! A vector of bits that grows and shrinks at both ends.

use std::collections::VecDeque;
use vstd::prelude::*;

verus! {

/// Bits from the least significant (index 0) to the most significant.
#[derive(Debug, Clone, PartialEq, Eq, PartialOrd, Ord, Hash)]
pub struct BitVector {
    deque: VecDeque<bool>,
}

impl View for BitVector {
    type V = Seq<bool>;

    closed spec fn view(&self) -> Seq<bool> {
        self.deque@
    }
}

impl BitVector {
    pub fn new() -> (r: BitVector)
        ensures
            r@ == Seq::<bool>::empty(),
    {
        BitVector { deque: VecDeque::new() }
    }

    /// Puts `v` below the least significant bit.
    pub fn push_lsb(&mut self, v: bool)
        ensures
            final(self)@ == seq![v] + old(self)@,
    {
        self.deque.push_front(v);
    }

    /// Puts `v` above the most significant bit.
    pub fn push_msb(&mut self, v: bool)
        ensures
            final(self)@ == old(self)@.push(v),
    {
        self.deque.push_back(v);
    }

    /// Takes the least significant bit away, if there is one.
    pub fn pop_lsb(&mut self) -> (r: Option<bool>)
        ensures
            old(self)@.len() == 0 ==> r.is_none() && final(self)@ == old(self)@,
            old(self)@.len() > 0 ==> r == Some(old(self)@[0]) && final(self)@ == old(
                self,
            )@.drop_first(),
    {
        let r = self.deque.pop_front();
        assert(old(self)@.len() > 0 ==> self@ =~= old(self)@.drop_first());
        r
    }

    /// Takes the most significant bit away, if there is one.
    pub fn pop_msb(&mut self) -> (r: Option<bool>)
        ensures
            old(self)@.len() == 0 ==> r.is_none() && final(self)@ == old(self)@,
            old(self)@.len() > 0 ==> r == Some(old(self)@.last()) && final(self)@ == old(
                self,
            )@.drop_last(),
    {
        let r = self.deque.pop_back();
        assert(old(self)@.len() > 0 ==> self@ =~= old(self)@.drop_last());
        r
    }

    /// The least significant bit, if there is one.
    pub fn lsb(&self) -> (r: Option<&bool>)
        ensures
            self@.len() == 0 ==> r.is_none(),
            self@.len() > 0 ==> r == Some(&self@[0]),
    {
        if self.deque.len() > 0 {
            Some(&self.deque[0])
        } else {
            None
        }
    }

    /// The most significant bit, if there is one.
    pub fn msb(&self) -> (r: Option<&bool>)
        ensures
            self@.len() == 0 ==> r.is_none(),
            self@.len() > 0 ==> r == Some(&self@.last()),
    {
        let n = self.deque.len();
        if n > 0 {
            Some(&self.deque[n - 1])
        } else {
            None
        }
    }

    /// The number of bits.
    pub fn len(&self) -> (r: usize)
        ensures
            r == self@.len(),
    {
        self.deque.len()
    }
}

} // verus!
