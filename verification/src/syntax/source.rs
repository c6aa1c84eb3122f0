//! Program files and spans of text in them.

use crate::syntax::identity::ProgramFileId;
use vstd::prelude::*;

verus! {

/// The files of a project.
#[derive(Debug, Clone)]
pub struct Project {
    files: Vec<ProgramFile>,
}

/// A file of program text.
#[derive(Debug, Clone, PartialEq, Eq, Hash)]
pub struct ProgramFile {
    program_file_id: ProgramFileId,
    path: String,
    body: Vec<char>,
}

/// A stretch of text: the file, and where in it the stretch begins and ends.
#[derive(Debug, Clone, Copy, PartialEq, Eq, PartialOrd, Ord, Hash)]
pub struct Span {
    program_file_id: ProgramFileId,
    begin: usize,
    end: usize,
}

impl View for Span {
    type V = (nat, nat, nat);

    /// The number of the file, the offset of the beginning, the offset of
    /// the end.
    closed spec fn view(&self) -> (nat, nat, nat) {
        (self.program_file_id.value(), self.begin as nat, self.end as nat)
    }
}

impl Span {
    /// The span of text that comes from no file.
    pub fn new() -> (r: Span)
        ensures
            r@ == (0nat, 0nat, 0nat),
    {
        Span { program_file_id: ProgramFileId::none(), begin: 0, end: 0 }
    }

    pub fn new_with_span(program_file_id: ProgramFileId, begin: usize, end: usize) -> (r: Span)
        ensures
            r@ == (program_file_id.value(), begin as nat, end as nat),
    {
        Span { program_file_id, begin, end }
    }
}

} // verus!
