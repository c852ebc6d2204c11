//! The lexer's issues and options.
use vstd::prelude::*;

use crate::issues::Issue;

verus! {

#[derive(Debug, Clone, Copy, PartialEq, Eq, Structural)]
pub enum LexerIssueKind {
    WARNING,
    ERROR,
}

#[derive(Debug, Clone)]
pub struct LexerIssue {
    pub kind: LexerIssueKind,
    pub message: String,
}

impl LexerIssue {
    pub fn new(kind: LexerIssueKind, message: String) -> (r: Self)
        ensures
            r.kind == kind,
            r.message@ == message@,
    {
        LexerIssue { kind, message }
    }
}

impl Issue for LexerIssue {
    open spec fn text(&self) -> Seq<char> {
        self.message@
    }

    open spec fn same_but_text(&self, other: &Self) -> bool {
        self.kind == other.kind
    }

    fn message(&self) -> (m: String) {
        self.message.clone()
    }

    fn set_message(&mut self, text: String) {
        self.message = text;
    }
}

/// Limits on the length of comments and identifiers.
#[derive(Debug, Clone, Copy)]
pub struct LexerOptions {
    pub max_comment_length: u32,
    pub max_identifier_length: u32,
}

} // verus!
