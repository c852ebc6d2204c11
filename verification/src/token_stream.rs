//! A source of tokens that hands out a list of tokens given beforehand.
use vstd::prelude::*;

use crate::issues::{IssueLevel, ParserIssue};
use crate::lexer::ILexer;
use crate::tokens::{Token, TokenCategory};

verus! {

/// The tokens of a list, in order; the first one is current from the start.
pub struct TokenStream {
    current_token: Option<Token>,
    tokens: Vec<Token>,
}

impl TokenStream {
    pub closed spec fn pending(&self) -> Seq<Token> {
        self.tokens@
    }

    /// A stream whose current token is the first of `tokens`.
    pub fn new(tokens: Vec<Token>) -> (r: TokenStream)
        requires
            tokens@.len() > 0,
        ensures
            r.token() == Some(tokens@[0]),
            r.pending() == tokens@.drop_first(),
    {
        let ghost given = tokens@;
        let mut tokens = tokens;
        let current_token = tokens.remove(0);
        assert(tokens@ =~= given.drop_first());
        TokenStream { current_token: Some(current_token), tokens }
    }
}

impl ILexer for TokenStream {
    closed spec fn token(&self) -> Option<Token> {
        self.current_token
    }

    closed spec fn measure(&self) -> nat {
        self.tokens@.len()
    }

    closed spec fn valid(&self) -> bool {
        true
    }

    closed spec fn coming(&self) -> Seq<Token> {
        self.tokens@
    }

    fn current(&self) -> (t: &Option<Token>) {
        &self.current_token
    }

    /// The next token of the list; past its end, an error with an empty
    /// message.
    fn next(&mut self) -> (r: Result<Token, ParserIssue>)
        ensures
            old(self).pending().len() == 0 <==> r is Err,
            r matches Ok(t) ==> t == old(self).pending()[0] && final(self).pending() == old(self).pending().drop_first(),
    {
        if self.tokens.len() == 0 {
            return Err(ParserIssue { level: IssueLevel::ERROR, message: String::new() });
        }
        let next_token = self.tokens.remove(0);
        self.current_token = Some(next_token.duplicate());
        assert(self.tokens@ =~= old(self).tokens@.drop_first());
        Ok(next_token)
    }
}

} // verus!
