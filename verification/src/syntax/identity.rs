//! The identity source: a counter that stamps tokens, syntax-tree nodes and
//! program files with identifiers that are never given twice.

use vstd::prelude::*;

verus! {

/// The identifier of a token or of a node of a syntax tree.
#[derive(Debug, Clone, Copy, PartialEq, Eq, PartialOrd, Ord, Hash)]
pub struct SyntaxTreeId(usize);

impl SyntaxTreeId {
    /// The number behind the identifier.
    pub closed spec fn value(&self) -> nat {
        self.0 as nat
    }

    /// Two identifiers with the same number are the same identifier.
    pub proof fn lemma_value_injective(a: SyntaxTreeId, b: SyntaxTreeId)
        requires
            a.value() == b.value(),
        ensures
            a == b,
    {
    }
}

/// The identifier of a program file. The number 0 is kept for text that
/// comes from no file.
#[derive(Debug, Clone, Copy, PartialEq, Eq, PartialOrd, Ord, Hash)]
pub struct ProgramFileId(usize);

impl ProgramFileId {
    /// The number behind the identifier.
    pub closed spec fn value(&self) -> nat {
        self.0 as nat
    }

    /// The identifier of no file.
    pub(crate) fn none() -> (r: ProgramFileId)
        ensures
            r.value() == 0,
    {
        ProgramFileId(0)
    }
}

/// A counter that starts at 1 and hands out each number once.
#[derive(Debug)]
pub struct IdentitySource {
    next: usize,
}

impl IdentitySource {
    /// The number that will be handed out next.
    pub closed spec fn next(&self) -> nat {
        self.next as nat
    }

    /// Whether the numbers have run out.
    pub open spec fn exhausted(&self) -> bool {
        self.next() >= usize::MAX
    }

    pub fn new() -> (r: IdentitySource)
        ensures
            r.next() == 1,
    {
        IdentitySource { next: 1 }
    }

    /// A source that goes on from `next`, for a run that takes up where
    /// another one stopped.
    pub fn starting_at(next: usize) -> (r: IdentitySource)
        requires
            next >= 1,
        ensures
            r.next() == next,
    {
        IdentitySource { next }
    }

    /// Hands out the current number and moves on to the next, unless the
    /// numbers have run out.
    pub fn allocate(&mut self) -> (r: Option<usize>)
        ensures
            old(self).exhausted() ==> r.is_none() && *final(self) == *old(self),
            !old(self).exhausted() ==> r == Some(old(self).next() as usize) && final(self).next()
                == old(self).next() + 1,
    {
        if self.next == usize::MAX {
            None
        } else {
            let res = self.next;
            self.next += 1;
            Some(res)
        }
    }
}

/// A fresh identifier for a token or a node of a syntax tree, unless the
/// numbers of `source` have run out.
pub fn gen_next_syntax_tree_id(source: &mut IdentitySource) -> (r: Option<SyntaxTreeId>)
    ensures
        old(source).exhausted() ==> r.is_none() && *final(source) == *old(source),
        !old(source).exhausted() ==> r.is_some() && r.unwrap().value() == old(source).next()
            && final(source).next() == old(source).next() + 1,
{
    match source.allocate() {
        Some(n) => Some(SyntaxTreeId(n)),
        None => None,
    }
}

/// A fresh identifier for a program file, unless the numbers of `source`
/// have run out.
pub fn gen_next_program_file_id(source: &mut IdentitySource) -> (r: Option<ProgramFileId>)
    ensures
        old(source).exhausted() ==> r.is_none() && *final(source) == *old(source),
        !old(source).exhausted() ==> r.is_some() && r.unwrap().value() == old(source).next()
            && final(source).next() == old(source).next() + 1,
{
    match source.allocate() {
        Some(n) => Some(ProgramFileId(n)),
        None => None,
    }
}

} // verus!
