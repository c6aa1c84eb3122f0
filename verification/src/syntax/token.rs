//! Tokens, token alphabets, and the cursor over a sequence of tokens.

use crate::syntax::source::Span;
use vstd::prelude::*;

verus! {

/// A token record: it knows where in the text it stands.
pub trait Token: Clone {
    fn span(&self) -> Span;
}

/// A token record that can be taken out of a value of the alphabet `A`.
pub trait TokenSetMatch<A: ?Sized>: Sized {
    /// The record inside `set`, if `set` is of the variant that wraps this
    /// type of record.
    fn token_match(set: &A) -> Option<Self>;
}

/// An alphabet: a closed union of variants, each of which wraps one type of
/// token record.
pub trait TokenSet: Sized {
    /// The number of the variant of this value, counted from 0 in the order
    /// in which the alphabet declares its variants.
    fn kind(&self) -> usize;

    /// The record of type `U` inside this value, as the extraction of `U` answers.
    fn token_match<U: TokenSetMatch<Self>>(&self) -> (r: Option<U>)
        default_ensures
            call_ensures(U::token_match, (self,), r),
    {
        U::token_match(self)
    }
}

/// A sequence of tokens with a read position.
///
/// The cursor asks every token for its variant once, when it is made, and
/// goes by these answers from then on.
pub struct Tokens<T: TokenSet> {
    ts: Vec<T>,
    kinds: Vec<usize>,
    i: usize,
}

impl<T: TokenSet> Tokens<T> {
    /// The tokens.
    pub closed spec fn tokens(&self) -> Seq<T> {
        self.ts@
    }

    /// The variant of each token.
    pub closed spec fn kinds(&self) -> Seq<nat> {
        Seq::new(self.kinds@.len(), |k: int| self.kinds@[k] as nat)
    }

    /// The read position.
    pub closed spec fn position(&self) -> nat {
        self.i as nat
    }

    /// The read position is inside the sequence or at its end, and every
    /// token has a variant.
    pub closed spec fn wf(&self) -> bool {
        &&& self.kinds@.len() == self.ts@.len()
        &&& self.i <= self.ts@.len()
        &&& forall|k: int|
            0 <= k < self.ts@.len() ==> call_ensures(
                T::kind,
                (&self.ts@[k],),
                #[trigger] self.kinds@[k],
            )
    }

    /// What a well-formed cursor holds.
    pub proof fn lemma_wf(&self)
        requires
            self.wf(),
        ensures
            self.kinds().len() == self.tokens().len(),
            self.position() <= self.tokens().len(),
            self.tokens().len() <= usize::MAX,
            forall|k: int|
                0 <= k < self.tokens().len() ==> call_ensures(
                    T::kind,
                    (&self.tokens()[k],),
                    (#[trigger] self.kinds()[k]) as usize,
                ),
    {
        assert(self.ts@.len() == self.ts.len());
    }

    /// A cursor at the beginning of `tokens`. It asks every token for its
    /// variant and keeps the answers.
    pub fn new(tokens: Vec<T>) -> (r: Tokens<T>)
        ensures
            r.wf(),
            r.tokens() == tokens@,
            r.position() == 0,
            r.kinds().len() == tokens@.len(),
            forall|k: int|
                0 <= k < tokens@.len() ==> call_ensures(
                    T::kind,
                    (&tokens@[k],),
                    (#[trigger] r.kinds()[k]) as usize,
                ),
    {
        let mut kinds: Vec<usize> = Vec::new();
        let mut k: usize = 0;
        while k < tokens.len()
            invariant
                k <= tokens.len(),
                kinds@.len() == k,
                forall|j: int|
                    0 <= j < k ==> call_ensures(T::kind, (&tokens@[j],), #[trigger] kinds@[j]),
            decreases tokens.len() - k,
        {
            let kind = tokens[k].kind();
            kinds.push(kind);
            k += 1;
        }
        Tokens { ts: tokens, kinds, i: 0 }
    }

    /// The read position.
    pub fn get_i(&self) -> (r: usize)
        ensures
            r == self.position(),
    {
        self.i
    }

    /// Moves the read position to `i`.
    pub fn set_i(&mut self, i: usize)
        requires
            old(self).wf(),
            i <= old(self).tokens().len(),
        ensures
            final(self).wf(),
            final(self).tokens() == old(self).tokens(),
            final(self).kinds() == old(self).kinds(),
            final(self).position() == i,
    {
        self.i = i;
    }

    /// The token at the read position.
    pub fn get_token(&self) -> (r: &T)
        requires
            self.wf(),
            self.position() < self.tokens().len(),
        ensures
            *r == self.tokens()[self.position() as int],
    {
        &self.ts[self.i]
    }

    /// Moves the read position past one token.
    pub fn next(&mut self)
        requires
            old(self).wf(),
            old(self).position() < old(self).tokens().len(),
        ensures
            final(self).wf(),
            final(self).tokens() == old(self).tokens(),
            final(self).kinds() == old(self).kinds(),
            final(self).position() == old(self).position() + 1,
    {
        assert(self.ts@.len() == self.ts.len());
        self.i += 1;
    }

    /// The number of tokens.
    pub fn len(&self) -> (r: usize)
        ensures
            r == self.tokens().len(),
    {
        self.ts.len()
    }

    /// The variant of the token at the read position.
    pub fn kind(&self) -> (r: usize)
        requires
            self.wf(),
            self.position() < self.tokens().len(),
        ensures
            r == self.kinds()[self.position() as int],
    {
        self.kinds[self.i]
    }
}

} // verus!
