//! The issues that each stage reports: a message and, where it matters, a level.
use vstd::prelude::*;

verus! {

/// Something a stage reports, with a message that can be rewritten.
pub trait Issue {
    spec fn text(&self) -> Seq<char>;

    fn message(&self) -> (m: String)
        ensures
            m@ == self.text(),
    ;

    /// Whether `other` is this issue, but for its text.
    spec fn same_but_text(&self, other: &Self) -> bool;

    fn set_message(&mut self, text: String)
        ensures
            final(self).text() == text@,
            old(self).same_but_text(final(self)),
    ;
}

#[derive(Debug, Clone, Copy, PartialEq, Eq, Structural)]
pub enum IssueLevel {
    WARNING,
    ERROR,
}

#[derive(Debug, Clone)]
pub struct LexerIssue {
    pub level: IssueLevel,
    pub message: String,
}

impl LexerIssue {
    pub fn new(level: IssueLevel, message: String) -> (r: Self)
        ensures
            r.level == level,
            r.message@ == message@,
    {
        LexerIssue { level, message }
    }
}

impl Issue for LexerIssue {
    open spec fn text(&self) -> Seq<char> {
        self.message@
    }

    open spec fn same_but_text(&self, other: &Self) -> bool {
        self.level == other.level
    }

    fn message(&self) -> (m: String) {
        self.message.clone()
    }

    fn set_message(&mut self, text: String) {
        self.message = text;
    }
}

#[derive(Debug, Clone)]
pub struct ParserIssue {
    pub level: IssueLevel,
    pub message: String,
}

impl Issue for ParserIssue {
    open spec fn text(&self) -> Seq<char> {
        self.message@
    }

    open spec fn same_but_text(&self, other: &Self) -> bool {
        self.level == other.level
    }

    fn message(&self) -> (m: String) {
        self.message.clone()
    }

    fn set_message(&mut self, text: String) {
        self.message = text;
    }
}

#[derive(Debug, Clone)]
pub struct SemanticCheckerIssue {
    pub message: String,
}

impl Issue for SemanticCheckerIssue {
    open spec fn text(&self) -> Seq<char> {
        self.message@
    }

    open spec fn same_but_text(&self, other: &Self) -> bool {
        true
    }

    fn message(&self) -> (m: String) {
        self.message.clone()
    }

    fn set_message(&mut self, text: String) {
        self.message = text;
    }
}

#[derive(Debug, Clone)]
pub struct InterpreterIssue {
    pub message: String,
}

impl Issue for InterpreterIssue {
    open spec fn text(&self) -> Seq<char> {
        self.message@
    }

    open spec fn same_but_text(&self, other: &Self) -> bool {
        true
    }

    fn message(&self) -> (m: String) {
        self.message.clone()
    }

    fn set_message(&mut self, text: String) {
        self.message = text;
    }
}

#[derive(Debug, Clone)]
pub struct ComputationIssue {
    pub message: String,
}

impl Issue for ComputationIssue {
    open spec fn text(&self) -> Seq<char> {
        self.message@
    }

    open spec fn same_but_text(&self, other: &Self) -> bool {
        true
    }

    fn message(&self) -> (m: String) {
        self.message.clone()
    }

    fn set_message(&mut self, text: String) {
        self.message = text;
    }
}

#[derive(Debug, Clone)]
pub struct ScopeManagerIssue {
    pub message: String,
}

impl Issue for ScopeManagerIssue {
    open spec fn text(&self) -> Seq<char> {
        self.message@
    }

    open spec fn same_but_text(&self, other: &Self) -> bool {
        true
    }

    fn message(&self) -> (m: String) {
        self.message.clone()
    }

    fn set_message(&mut self, text: String) {
        self.message = text;
    }
}

#[derive(Debug, Clone)]
pub struct StackOverflowIssue {
    pub message: String,
}

impl Issue for StackOverflowIssue {
    open spec fn text(&self) -> Seq<char> {
        self.message@
    }

    open spec fn same_but_text(&self, other: &Self) -> bool {
        true
    }

    fn message(&self) -> (m: String) {
        self.message.clone()
    }

    fn set_message(&mut self, text: String) {
        self.message = text;
    }
}

#[derive(Debug, Clone)]
pub struct StdFunctionIssue {
    pub message: String,
}

impl Issue for StdFunctionIssue {
    open spec fn text(&self) -> Seq<char> {
        self.message@
    }

    open spec fn same_but_text(&self, other: &Self) -> bool {
        true
    }

    fn message(&self) -> (m: String) {
        self.message.clone()
    }

    fn set_message(&mut self, text: String) {
        self.message = text;
    }
}

} // verus!
