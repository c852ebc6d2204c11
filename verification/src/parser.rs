//! The parser: recursive descent over the tokens of a lexer.
use vstd::prelude::*;
use vstd::string::StringExecFns;

use crate::ast::{
    Argument, Block, Expression, FunctionDeclaration, Literal, Node, Parameter, PassedBy, Program, Statement, SwitchCase,
    SwitchExpression, Type,
};
use crate::issues::{IssueLevel, ParserIssue};
use crate::grammar::{
    is_block, is_declaration, is_for_condition, is_for_declaration, is_for_end, is_for_rest, is_for_step, is_function, is_if_blocks,
    is_if_rest, is_items, is_parameter, is_parameters, is_return_type, is_statement, is_statements, is_switch_case, is_switch_cases,
    is_switch_expression, is_switch_expressions, is_switch_rest, is_program,
    comparison_of, cut, is_argument, is_arguments, is_additive, is_casted, is_concatenation, is_expression, is_factor, is_identifier, is_multiplicative,
    is_relation, is_unary,
};
use crate::lexer::ILexer;
use crate::position::{append_position_text, with_position, Position};
use crate::text::{int_text, nat_text};
use crate::tokens::{spec_category_text, FloatLiteral, Token, TokenCategory, TokenValue};

verus! {

/// How a float literal is written in messages.
pub open spec fn float_text(f: FloatLiteral) -> Seq<char> {
    crate::text::decimal_text(f.integral as int, (f.fraction as u64) as nat, (f.fraction_digits as u64) as nat)
}

/// How a token is shown in messages: its value, or its category when it
/// carries none.
pub open spec fn spec_token_text(t: Token) -> Seq<char> {
    match t.value {
        TokenValue::F64(f) => float_text(f),
        TokenValue::I64(i) => int_text(i as int),
        TokenValue::String(s) => s@,
        _ => spec_category_text(t.category),
    }
}


/// `Unexpected token - '{token}'. Expected '{category}'.`
pub open spec fn unexpected_text(t: Token, expected: TokenCategory) -> Seq<char> {
    "Unexpected token - '"@ + spec_token_text(t) + "'. Expected '"@ + spec_category_text(expected) + "'."@
}

pub fn token_text(t: &Token) -> (s: String)
    ensures
        s@ == spec_token_text(*t),
{
    match &t.value {
        TokenValue::F64(f) => crate::text::decimal_to_string(f.integral, f.fraction as u64, f.fraction_digits as u64),
        TokenValue::I64(i) => crate::text::i64_to_string(*i),
        TokenValue::String(s) => s.clone(),
        _ => String::from_str(t.category.text()),
    }
}

/// Taking tokens in two steps takes the tokens of both steps.
pub proof fn lemma_beyond_join(a: Seq<Token>, b: Seq<Token>, c: Seq<Token>)
    requires
        extends(a, b),
        extends(b, c),
    ensures
        extends(a, c),
        beyond(a, c) == beyond(a, b) + beyond(b, c),
{
    assert(beyond(a, c) =~= beyond(a, b) + beyond(b, c));
}

/// Taking one token takes just that token.
pub proof fn lemma_beyond_push(a: Seq<Token>, t: Token)
    ensures
        extends(a, a.push(t)),
        beyond(a, a.push(t)) == seq![t],
{
    assert(beyond(a, a.push(t)) =~= seq![t]);
}

/// Taking no token takes nothing.
pub proof fn lemma_beyond_none(a: Seq<Token>)
    ensures
        extends(a, a),
        beyond(a, a) == Seq::<Token>::empty(),
{
    assert(beyond(a, a) =~= Seq::<Token>::empty());
}

/// The tokens taken by a step that takes `l`, then the token `op`, then
/// `r`: split at `op`, they give back `l` and `r`.
pub proof fn lemma_split_at(t0: Seq<Token>, t1: Seq<Token>, op: Token, t3: Seq<Token>)
    requires
        extends(t0, t1),
        extends(t1.push(op), t3),
    ensures
        extends(t0, t3),
        cut(beyond(t0, t3), beyond(t0, t1).len() as int),
        beyond(t0, t3).take(beyond(t0, t1).len() as int) == beyond(t0, t1),
        beyond(t0, t3)[beyond(t0, t1).len() as int] == op,
        beyond(t0, t3).skip(beyond(t0, t1).len() as int + 1) == beyond(t1.push(op), t3),
{
    lemma_beyond_push(t1, op);
    lemma_beyond_join(t0, t1, t1.push(op));
    lemma_beyond_join(t0, t1.push(op), t3);
    let ts = beyond(t0, t3);
    let l = beyond(t0, t1);
    assert(ts =~= l + seq![op] + beyond(t1.push(op), t3));
    assert(ts.take(l.len() as int) =~= l);
    assert(ts.skip(l.len() as int + 1) =~= beyond(t1.push(op), t3));
}

/// The tokens taken by a step that takes `l` and then `r`: split where `r`
/// begins, they give back `l` and `r`.
pub proof fn lemma_split_between(t0: Seq<Token>, t1: Seq<Token>, t2: Seq<Token>)
    requires
        extends(t0, t1),
        extends(t1, t2),
        t1.len() < t2.len(),
    ensures
        extends(t0, t2),
        cut(beyond(t0, t2), beyond(t0, t1).len() as int),
        beyond(t0, t2).take(beyond(t0, t1).len() as int) == beyond(t0, t1),
        beyond(t0, t2).skip(beyond(t0, t1).len() as int) == beyond(t1, t2),
{
    lemma_beyond_join(t0, t1, t2);
    let ts = beyond(t0, t2);
    let l = beyond(t0, t1);
    assert(ts.take(l.len() as int) =~= l);
    assert(ts.skip(l.len() as int) =~= beyond(t1, t2));
}

/// How the pieces a `for` statement is read in make up the tokens it takes:
/// "for", "(", the declaration (`t2` to `t3`), ";", the condition (`t4` to
/// `t5`), ";", the step (`t6` to `t9`), ")", the block (`t10` to `t11`).
pub proof fn lemma_for_tokens(
    t0: Seq<Token>,
    t2: Seq<Token>,
    t3: Seq<Token>,
    t4: Seq<Token>,
    t5: Seq<Token>,
    t6: Seq<Token>,
    t9: Seq<Token>,
    t10: Seq<Token>,
    t11: Seq<Token>,
    for_token: Token,
    open: Token,
    semi1: Token,
    semi2: Token,
    close: Token,
)
    requires
        t2 == t0.push(for_token).push(open),
        extends(t2, t3),
        t4 == t3.push(semi1),
        extends(t4, t5),
        t6 == t5.push(semi2),
        extends(t6, t9),
        t10 == t9.push(close),
        extends(t10, t11),
    ensures
        extends(t0, t11),
        beyond(t0, t11).len() >= 2,
        beyond(t0, t11)[0] == for_token,
        beyond(t0, t11)[1] == open,
        beyond(t0, t11).skip(2) == beyond(t2, t11),
        cut(beyond(t2, t11), beyond(t2, t3).len() as int),
        beyond(t2, t11).take(beyond(t2, t3).len() as int) == beyond(t2, t3),
        beyond(t2, t11)[beyond(t2, t3).len() as int] == semi1,
        beyond(t2, t11).skip(beyond(t2, t3).len() as int + 1) == beyond(t4, t11),
        cut(beyond(t4, t11), beyond(t4, t5).len() as int),
        beyond(t4, t11).take(beyond(t4, t5).len() as int) == beyond(t4, t5),
        beyond(t4, t11)[beyond(t4, t5).len() as int] == semi2,
        beyond(t4, t11).skip(beyond(t4, t5).len() as int + 1) == beyond(t6, t11),
        cut(beyond(t6, t11), beyond(t6, t9).len() as int),
        beyond(t6, t11).take(beyond(t6, t9).len() as int) == beyond(t6, t9),
        beyond(t6, t11)[beyond(t6, t9).len() as int] == close,
        beyond(t6, t11).skip(beyond(t6, t9).len() as int + 1) == beyond(t10, t11),
{
    let t1 = t0.push(for_token);
    lemma_beyond_push(t0, for_token);
    lemma_beyond_push(t1, open);
    lemma_beyond_join(t0, t1, t2);
    lemma_split_at(t6, t9, close, t11);
    lemma_split_at(t4, t5, semi2, t11);
    lemma_split_at(t2, t3, semi1, t11);
    lemma_beyond_join(t0, t2, t11);
    assert(beyond(t0, t2) =~= seq![for_token, open]);
    assert(beyond(t0, t11).skip(2) =~= beyond(t2, t11));
}

/// How the pieces a `switch` statement is read in make up the tokens it
/// takes: "switch", "(", the switch expressions (`t2` to `t3`), ")", "{",
/// the cases (`t5` to `t6`), "}".
pub proof fn lemma_switch_tokens(
    t0: Seq<Token>,
    t2: Seq<Token>,
    t3: Seq<Token>,
    t5: Seq<Token>,
    t6: Seq<Token>,
    t7: Seq<Token>,
    switch_token: Token,
    open: Token,
    close: Token,
    brace: Token,
    end: Token,
)
    requires
        t2 == t0.push(switch_token).push(open),
        extends(t2, t3),
        t5 == t3.push(close).push(brace),
        extends(t5, t6),
        t7 == t6.push(end),
    ensures
        extends(t0, t7),
        beyond(t0, t7).len() >= 2,
        beyond(t0, t7)[0] == switch_token,
        beyond(t0, t7)[1] == open,
        beyond(t0, t7).skip(2) == beyond(t2, t7),
        cut(beyond(t2, t7), beyond(t2, t3).len() as int),
        beyond(t2, t7).take(beyond(t2, t3).len() as int) == beyond(t2, t3),
        beyond(t2, t7)[beyond(t2, t3).len() as int] == close,
        beyond(t2, t7).len() >= beyond(t2, t3).len() + 3,
        beyond(t2, t7)[beyond(t2, t3).len() as int + 1] == brace,
        beyond(t2, t7).last() == end,
        beyond(t2, t7).subrange(beyond(t2, t3).len() as int + 2, beyond(t2, t7).len() - 1) == beyond(t5, t6),
{
    let t1 = t0.push(switch_token);
    let t4 = t3.push(close);
    lemma_beyond_push(t0, switch_token);
    lemma_beyond_push(t1, open);
    lemma_beyond_join(t0, t1, t2);
    lemma_beyond_push(t3, close);
    lemma_beyond_push(t4, brace);
    lemma_beyond_join(t3, t4, t5);
    lemma_beyond_join(t2, t3, t5);
    lemma_beyond_join(t2, t5, t6);
    lemma_beyond_push(t6, end);
    lemma_beyond_join(t2, t6, t7);
    lemma_beyond_join(t0, t2, t7);
    let a = beyond(t2, t7);
    let n = beyond(t2, t3).len();
    assert(a =~= beyond(t2, t3) + seq![close, brace] + beyond(t5, t6) + seq![end]);
    assert(a.take(n as int) =~= beyond(t2, t3));
    assert(a.subrange(n as int + 2, a.len() - 1) =~= beyond(t5, t6));
    assert(beyond(t0, t2) =~= seq![switch_token, open]);
    assert(beyond(t0, t7).skip(2) =~= a);
}

/// How the pieces a function declaration is read in make up the tokens it
/// takes: "fn", the name, "(", the parameters (`t3` to `t4`), ")", ":", the
/// return type, the block (`t7` to `t8`).
pub proof fn lemma_function_tokens(
    t0: Seq<Token>,
    t3: Seq<Token>,
    t4: Seq<Token>,
    t6: Seq<Token>,
    t7: Seq<Token>,
    t8: Seq<Token>,
    fn_token: Token,
    id_token: Token,
    open: Token,
    close: Token,
    colon: Token,
    rt_token: Token,
)
    requires
        t3 == t0.push(fn_token).push(id_token).push(open),
        extends(t3, t4),
        t6 == t4.push(close).push(colon),
        t7 == t6.push(rt_token),
        extends(t7, t8),
    ensures
        extends(t0, t8),
        beyond(t0, t8).len() >= 3,
        beyond(t0, t8)[0] == fn_token,
        beyond(t0, t8)[1] == id_token,
        beyond(t0, t8)[2] == open,
        cut(beyond(t0, t8), 3 + beyond(t3, t4).len() as int),
        3 + beyond(t3, t4).len() as int + 2 < beyond(t0, t8).len(),
        beyond(t0, t8)[3 + beyond(t3, t4).len() as int] == close,
        beyond(t0, t8)[3 + beyond(t3, t4).len() as int + 1] == colon,
        beyond(t0, t8)[3 + beyond(t3, t4).len() as int + 2] == rt_token,
        beyond(t0, t8).subrange(3, 3 + beyond(t3, t4).len() as int) == beyond(t3, t4),
        beyond(t0, t8).skip(3 + beyond(t3, t4).len() as int + 3) == beyond(t7, t8),
{
    let t1 = t0.push(fn_token);
    let t2 = t1.push(id_token);
    let t5 = t4.push(close);
    lemma_beyond_push(t0, fn_token);
    lemma_beyond_push(t1, id_token);
    lemma_beyond_push(t2, open);
    lemma_beyond_join(t0, t1, t2);
    lemma_beyond_join(t0, t2, t3);
    lemma_beyond_push(t4, close);
    lemma_beyond_push(t5, colon);
    lemma_beyond_push(t6, rt_token);
    lemma_beyond_join(t4, t5, t6);
    lemma_beyond_join(t4, t6, t7);
    lemma_beyond_join(t3, t4, t7);
    lemma_beyond_join(t3, t7, t8);
    lemma_beyond_join(t0, t3, t8);
    let ts = beyond(t0, t8);
    let n = beyond(t3, t4).len() as int;
    assert(ts =~= seq![fn_token, id_token, open] + beyond(t3, t4) + seq![close, colon, rt_token] + beyond(t7, t8));
    assert(ts.subrange(3, 3 + n) =~= beyond(t3, t4));
    assert(ts.skip(3 + n + 3) =~= beyond(t7, t8));
}

/// Whether a token of this category can start a type.
pub open spec fn spec_type_of(c: TokenCategory) -> Option<Type> {
    match c {
        TokenCategory::Bool => Some(Type::Bool),
        TokenCategory::String => Some(Type::Str),
        TokenCategory::I64 => Some(Type::I64),
        TokenCategory::F64 => Some(Type::F64),
        _ => None,
    }
}

/// The literal a token stands for, if any.
pub open spec fn spec_literal_of(t: Token) -> Option<Literal> {
    match (t.category, t.value) {
        (TokenCategory::True, _) => Some(Literal::True),
        (TokenCategory::False, _) => Some(Literal::False),
        (TokenCategory::I64Value, TokenValue::I64(i)) => Some(Literal::I64(i)),
        (TokenCategory::F64Value, TokenValue::F64(f)) => Some(Literal::F64(f)),
        (TokenCategory::StringValue, TokenValue::String(s)) => Some(Literal::String(s)),
        _ => None,
    }
}

pub struct Parser<L: ILexer> {
    lexer: L,
    /// The tokens moved past so far, in order.
    taken: Ghost<Seq<Token>>,
}

/// The token, if there is one, as a sequence of at most one.
pub open spec fn token_seq(t: Option<Token>) -> Seq<Token> {
    match t {
        Some(t) => seq![t],
        None => Seq::empty(),
    }
}

/// A comment token.
pub open spec fn is_comment(t: Option<Token>) -> bool {
    t matches Some(c) && c.category == TokenCategory::Comment
}

/// Where the parser can stand after the lexer failed to read past a token of
/// category `c` that was then given up: still on a token of that category,
/// or on a comment.
pub open spec fn stuck_on(t: Option<Token>, c: TokenCategory) -> bool {
    t matches Some(x) && (x.category == c || x.category == TokenCategory::Comment)
}

/// `b` is `a` followed by more tokens.
pub open spec fn extends(a: Seq<Token>, b: Seq<Token>) -> bool {
    &&& a.len() <= b.len()
    &&& forall|k: int| 0 <= k < a.len() ==> #[trigger] b[k] == a[k]
}

/// The tokens `b` has beyond `a`.
pub open spec fn beyond(a: Seq<Token>, b: Seq<Token>) -> Seq<Token> {
    b.skip(a.len() as int)
}

impl<L: ILexer> Parser<L> {
    /// The lexer is usable and has a current token.
    pub closed spec fn valid(&self) -> bool {
        self.lexer.valid() && self.lexer.token() is Some
    }

    pub closed spec fn measure(&self) -> nat {
        self.lexer.measure()
    }

    /// The current token.
    pub closed spec fn current(&self) -> Token {
        self.lexer.token()->0
    }

    /// The current token, then those the lexer is known to produce next.
    pub closed spec fn stream(&self) -> Seq<Token> {
        seq![self.current()] + self.lexer.coming()
    }

    /// The stream begins with the current token.
    pub proof fn lemma_stream_front(&self)
        ensures
            self.stream().len() >= 1,
            self.stream()[0] == self.current(),
    {
    }

    /// The token after the current one is known and is no comment, so taking
    /// the current token moves the parser one token along the stream.
    pub open spec fn steps_cleanly(&self) -> bool {
        self.stream().len() >= 2 && self.stream()[1].category != TokenCategory::Comment
    }

    /// `next` is where the parser stands after it took the current token,
    /// of category `c`, and the lexer then failed to read past it.
    pub open spec fn gave_up_on(&self, next: Self, c: TokenCategory) -> bool {
        &&& self.current().category == c
        &&& next.taken() == self.taken().push(self.current())
        &&& stuck_on(next.lexer_state().token(), c)
    }

    pub closed spec fn lexer_state(&self) -> L {
        self.lexer
    }

    /// The tokens the parser has moved past, in order.
    pub closed spec fn taken(&self) -> Seq<Token> {
        self.taken@
    }

    pub fn new(lexer: L) -> (p: Parser<L>)
        ensures
            p.lexer_state() == lexer,
            p.taken() == Seq::<Token>::empty(),
    {
        Parser { lexer, taken: Ghost(Seq::empty()) }
    }

    /// Gives the lexer back, once parsing is over.
    pub fn into_lexer(self) -> (l: L)
        ensures
            l == self.lexer_state(),
    {
        self.lexer
    }

    /// Takes the next token, skipping comments.
    pub fn next_token(&mut self) -> (r: Result<Option<Token>, ParserIssue>)
        requires
            old(self).lexer_state().valid(),
        ensures
            r is Err ==> final(self).lexer_state().token() == old(self).lexer_state().token() || is_comment(final(self).lexer_state().token()),
            final(self).lexer_state().valid(),
            r matches Ok(Some(t)) ==> final(self).lexer_state().token() == Some(t) && t.category != TokenCategory::Comment,
            r is Ok ==> r matches Ok(Some(_)),
            old(self).lexer_state().token() is Some ==> final(self).lexer_state().token() is Some,
            final(self).measure() <= old(self).measure(),
            extends(old(self).taken(), final(self).taken()),
            (r is Ok && (old(self).lexer_state().token() matches Some(c) && c.category != TokenCategory::ETX)) ==> final(self).measure() < old(self).measure(),
            final(self).taken() == old(self).taken() + token_seq(old(self).lexer_state().token()),
            old(self).lexer_state().token() is Some && old(self).steps_cleanly() ==> r == Ok::<Option<Token>, ParserIssue>(Some(old(self).stream()[1]))
                && final(self).stream() == old(self).stream().skip(1),
    {
        proof {
            self.taken@ = self.taken@ + token_seq(self.lexer.token());
        }
        let mut current_token = self.lexer.next()?;
        while current_token.category == TokenCategory::Comment
            invariant
                self.lexer.valid(),
                self.lexer.token() == Some(current_token),
                self.measure() <= old(self).measure(),
                extends(old(self).taken(), self.taken()),
                self.taken@ == old(self).taken@ + token_seq(old(self).lexer.token()),
                (old(self).lexer.token() matches Some(c) && c.category != TokenCategory::ETX) ==> self.measure() < old(self).measure(),
                old(self).lexer.token() is Some && old(self).steps_cleanly() ==> current_token == old(self).stream()[1]
                    && self.lexer.coming() == old(self).lexer.coming().drop_first(),
            decreases self.measure(),
        {
            let ghost before = self.lexer;
            match self.lexer.next() {
                Ok(t) => {
                    current_token = t;
                },
                Err(e) => {
                    return Err(e);
                },
            }
        }
        proof {
            if old(self).lexer.token() is Some && old(self).steps_cleanly() {
                assert(self.stream() =~= old(self).stream().skip(1));
            }
        }
        Ok(Some(current_token))
    }

    pub fn current_token(&self) -> (t: Token)
        requires
            self.valid(),
        ensures
            t == self.current(),
    {
        match self.lexer.current() {
            Some(t) => t.duplicate(),
            None => {
                proof {
                    assert(false);
                }
                Token { category: TokenCategory::ETX, value: TokenValue::Null, position: Position::new(0, 0, 0) }
            },
        }
    }

    /// An error at the current token: `text\nAt line: L, column: C.`
    pub fn create_parser_error(&self, text: String) -> (e: ParserIssue)
        requires
            self.valid(),
        ensures
            e.message@ == with_position(text@, self.current().position),
            e.level == IssueLevel::ERROR,
    {
        let position = self.current_token().position;
        ParserIssue { level: IssueLevel::ERROR, message: append_position_text(&text, position) }
    }

    /// Takes the current token when it is of `category`, else reports it.
    pub fn consume_must_be(&mut self, category: TokenCategory) -> (r: Result<Token, ParserIssue>)
        requires
            old(self).valid(),
        ensures
            r is Err && old(self).current().category == category ==> stuck_on(final(self).lexer_state().token(), category),
            r is Err && old(self).current().category == category ==> final(self).taken() == old(self).taken().push(old(self).current()),
            r matches Ok(t) ==> final(self).taken() == old(self).taken().push(t),
            old(self).current().category == category && old(self).steps_cleanly() ==> r == Ok::<Token, ParserIssue>(old(self).current())
                && final(self).stream() == old(self).stream().skip(1),
            final(self).valid(),
            final(self).measure() <= old(self).measure(),
            extends(old(self).taken(), final(self).taken()),
            old(self).current().category == category ==> {
                &&& (r matches Ok(t) ==> (t == old(self).current() && final(self).current().category != TokenCategory::Comment && (category != TokenCategory::ETX ==> final(self).measure() < old(self).measure())))
            },
            old(self).current().category != category ==> {
                &&& r matches Err(e)
                &&& e.message@ == with_position(unexpected_text(old(self).current(), category), old(self).current().position)
                &&& *final(self) == *old(self)
            },
    {
        let current_token = self.current_token();
        if current_token.category == category {
            proof {
                assert(self.taken() + token_seq(self.lexer.token()) =~= self.taken().push(current_token));
            }
            self.next_token()?;
            return Ok(current_token);
        }
        let text = token_text(&current_token);
        let mut message = String::from_str("Unexpected token - '");
        message.append(text.as_str());
        message.append("'. Expected '");
        message.append(category.text());
        message.append("'.");
        Err(self.create_parser_error(message))
    }

    /// Takes the current token when it is of `category`.
    pub fn consume_if_matches(&mut self, category: TokenCategory) -> (r: Result<Option<Token>, ParserIssue>)
        requires
            old(self).valid(),
        ensures
            r matches Ok(Some(t)) ==> final(self).taken() == old(self).taken().push(t),
            old(self).current().category == category && old(self).steps_cleanly() ==> r == Ok::<Option<Token>, ParserIssue>(
                Some(old(self).current()),
            ) && final(self).stream() == old(self).stream().skip(1),
            final(self).valid(),
            final(self).measure() <= old(self).measure(),
            extends(old(self).taken(), final(self).taken()),
            old(self).current().category == category ==> {
                &&& (r matches Ok(Some(t)) ==> (t == old(self).current() && final(self).current().category != TokenCategory::Comment && (category != TokenCategory::ETX ==> final(self).measure() < old(self).measure())))
                &&& (r is Ok ==> r matches Ok(Some(_)))
            },
            old(self).current().category != category ==> r == Ok::<Option<Token>, ParserIssue>(None) && *final(self) == *old(self),
    {
        let current_token = self.current_token();
        if current_token.category == category {
            self.next_token()?;
            return Ok(Some(current_token));
        }
        Ok(None)
    }

    pub fn parse_type(&mut self) -> (r: Result<Option<Node<Type>>, ParserIssue>)
        requires
            old(self).valid(),
        ensures
            r is Err ==> final(self).lexer_state().token() == old(self).lexer_state().token() || is_comment(final(self).lexer_state().token()),
            r matches Ok(Some(_)) ==> final(self).taken() == old(self).taken().push(old(self).current()),
            final(self).valid(),
            final(self).measure() <= old(self).measure(),
            extends(old(self).taken(), final(self).taken()),
            spec_type_of(old(self).current().category) is None ==> r == Ok::<Option<Node<Type>>, ParserIssue>(None) && *final(self) == *old(self),
            spec_type_of(old(self).current().category) matches Some(t) ==> {
                &&& (r matches Ok(Some(n)) ==> (n == (Node { value: t, position: old(self).current().position }) && final(self).measure() < old(self).measure()))
                &&& (r is Ok ==> r matches Ok(Some(_)))
            },
            spec_type_of(old(self).current().category) is Some && old(self).steps_cleanly() ==> (r matches Ok(Some(_)) && final(self).stream()
                == old(self).stream().skip(1)),
    {
        let token = self.current_token();
        let result = match token.category {
            TokenCategory::Bool => Type::Bool,
            TokenCategory::String => Type::Str,
            TokenCategory::I64 => Type::I64,
            TokenCategory::F64 => Type::F64,
            _ => {
                return Ok(None);
            },
        };
        self.next_token()?;
        Ok(Some(Node { value: result, position: token.position }))
    }

    pub fn parse_literal(&mut self) -> (r: Result<Option<Node<Literal>>, ParserIssue>)
        requires
            old(self).valid(),
        ensures
            r matches Ok(Some(_)) ==> final(self).taken() == old(self).taken().push(old(self).current()),
            final(self).valid(),
            final(self).measure() <= old(self).measure(),
            extends(old(self).taken(), final(self).taken()),
            r is Ok,
            spec_literal_of(old(self).current()) is None ==> r == Ok::<Option<Node<Literal>>, ParserIssue>(None) && *final(self) == *old(self),
            spec_literal_of(old(self).current()) matches Some(l) ==> r matches Ok(Some(n)) && n.value == l && n.position == old(self).current().position,
            spec_literal_of(old(self).current()) is Some && old(self).steps_cleanly() ==> final(self).stream() == old(self).stream().skip(1),
    {
        let token = self.current_token();
        let position = token.position;
        let literal = match (token.category, token.value) {
            (TokenCategory::True, _) => Literal::True,
            (TokenCategory::False, _) => Literal::False,
            (TokenCategory::I64Value, TokenValue::I64(number)) => Literal::I64(number),
            (TokenCategory::F64Value, TokenValue::F64(float)) => Literal::F64(float),
            (TokenCategory::StringValue, TokenValue::String(string)) => Literal::String(string),
            _ => {
                return Ok(None);
            },
        };
        let _ = self.next_token();
        Ok(Some(Node { value: literal, position }))
    }

    pub fn parse_identifier(&mut self) -> (r: Result<Option<Node<String>>, ParserIssue>)
        requires
            old(self).valid(),
        ensures
            r matches Ok(None) ==> (*final(self) == *old(self) && old(self).current().category != TokenCategory::Identifier) || old(self).gave_up_on(*final(self), TokenCategory::Identifier),
            r matches Ok(Some(_)) ==> final(self).taken() == old(self).taken().push(old(self).current()),
            final(self).valid(),
            final(self).measure() <= old(self).measure(),
            extends(old(self).taken(), final(self).taken()),
            old(self).current().category != TokenCategory::Identifier ==> r == Ok::<Option<Node<String>>, ParserIssue>(None) && *final(self) == *old(self),
            r matches Ok(Some(n)) ==> {
                &&& old(self).current().category == TokenCategory::Identifier
                &&& old(self).current().value == TokenValue::String(n.value)
                &&& n.position == old(self).current().position
                &&& final(self).measure() < old(self).measure()
            },
            r is Err ==> old(self).current().category == TokenCategory::Identifier && !(old(self).current().value is String),
            old(self).current().category == TokenCategory::Identifier && old(self).current().value is String && old(self).steps_cleanly() ==> (r
                matches Ok(Some(_)) && final(self).stream() == old(self).stream().skip(1)),
    {
        let token = match self.consume_must_be(TokenCategory::Identifier) {
            Ok(t) => t,
            Err(_) => {
                return Ok(None);
            },
        };
        if let TokenValue::String(name) = token.value {
            return Ok(Some(Node { value: name, position: token.position }));
        }
        let mut message = String::from_str("Wrong token value type - given: '");
        message.append(token.category.text());
        message.append("', expected: 'str'.");
        Err(self.create_parser_error(message))
    }

    pub fn parse_statement_block(&mut self) -> (r: Result<Option<Node<Block>>, ParserIssue>)
        requires
            old(self).valid(),
        ensures
            r matches Ok(None) ==> (*final(self) == *old(self) && old(self).current().category != TokenCategory::BraceOpen) || old(self).gave_up_on(*final(self), TokenCategory::BraceOpen),
            r matches Ok(Some(b)) ==> is_block(beyond(old(self).taken(), final(self).taken()), b),
            final(self).valid(),
            final(self).measure() <= old(self).measure(),
            extends(old(self).taken(), final(self).taken()),
            old(self).current().category != TokenCategory::BraceOpen ==> r == Ok::<Option<Node<Block>>, ParserIssue>(None) && *final(self) == *old(self),
            r matches Ok(Some(n)) ==> n.position == old(self).current().position && final(self).measure() < old(self).measure(),
            old(self).current().category == TokenCategory::BraceOpen && clean_ahead(old(self).stream(), 2) && old(self).stream()[1].category
                == TokenCategory::BraceClose ==> (r matches Ok(Some(b)) && b.value.0@.len() == 0 && final(self).stream() == old(
                self,
            ).stream().skip(2)),
        decreases old(self).measure(), 40nat,
    {
        let ghost t0 = self.taken();
        let token = match self.consume_must_be(TokenCategory::BraceOpen) {
            Ok(t) => t,
            Err(_) => {
                return Ok(None);
            },
        };
        let ghost t1 = self.taken();
        let mut statements: Vec<Node<Statement>> = Vec::new();
        let ghost empty = clean_ahead(old(self).stream(), 2) && old(self).stream()[1].category == TokenCategory::BraceClose;
        proof {
            lemma_beyond_none(t1);
            self.lemma_stream_front();
            old(self).lemma_stream_front();
        }
        loop
            invariant
                empty == (clean_ahead(old(self).stream(), 2) && old(self).stream()[1].category == TokenCategory::BraceClose),
                empty ==> statements@.len() == 0 && self.stream() == old(self).stream().skip(1),
                self.valid(),
                self.measure() < old(self).measure(),
                extends(old(self).taken(), self.taken()),
                old(self).current().category == TokenCategory::BraceOpen,
                t1 == t0.push(token),
                extends(t1, self.taken()),
                is_statements(beyond(t1, self.taken()), statements@) || (statements@.len() >= 1 && stuck_on(
                    self.lexer_state().token(),
                    TokenCategory::BraceOpen,
                )),
            decreases self.measure(),
        {
            proof {
                self.lemma_stream_front();
            }
            if self.current_token().category == TokenCategory::BraceClose {
                break;
            }
            let ghost tb = self.taken();
            let statement = match self.parse_statement()? {
                Some(t) => t,
                None => {
                    return Err(self.create_parser_error(String::from_str("Couldn't create statement while parsing statement block.")));
                },
            };
            let ghost before = statements@;
            statements.push(statement);
            proof {
                assert(statements@.drop_last() =~= before);
                if is_statement(beyond(tb, self.taken()), statement) {
                    lemma_split_between(t1, tb, self.taken());
                }
            }
        }
        let ghost t2 = self.taken();
        proof {
            self.lemma_stream_front();
            if empty {
                assert(self.stream().skip(1) =~= old(self).stream().skip(2));
            }
        }
        let close = self.consume_must_be(TokenCategory::BraceClose)?;
        proof {
            lemma_beyond_push(t0, token);
            lemma_beyond_join(t0, t1, t2);
            lemma_beyond_push(t2, close);
            lemma_beyond_join(t0, t2, self.taken());
            let ts = beyond(t0, self.taken());
            assert(ts =~= seq![token] + beyond(t1, t2) + seq![close]);
            assert(ts.subrange(1, ts.len() - 1) =~= beyond(t1, t2));
        }
        Ok(Some(Node { value: Block(statements), position: token.position }))
    }

    pub fn parse_statement(&mut self) -> (r: Result<Option<Node<Statement>>, ParserIssue>)
        requires
            old(self).valid(),
        ensures
            r matches Ok(Some(n)) ==> is_statement(beyond(old(self).taken(), final(self).taken()), n) || stuck_on(final(self).lexer_state().token(), TokenCategory::BraceOpen),
            final(self).valid(),
            final(self).measure() <= old(self).measure(),
            extends(old(self).taken(), final(self).taken()),
            r matches Ok(Some(_)) ==> final(self).measure() < old(self).measure(),
            r matches Ok(None) ==> (*final(self) == *old(self) && !spec_starts_statement(old(self).current().category)) || (spec_starts_statement(
                old(self).current().category,
            ) && spec_type_of(old(self).current().category) is None && old(self).gave_up_on(*final(self), old(self).current().category)),
            !spec_starts_statement(old(self).current().category) ==> r == Ok::<Option<Node<Statement>>, ParserIssue>(None) && *final(self) == *old(self),
            old(self).current().category == TokenCategory::Break && clean_ahead(old(self).stream(), 2) && old(self).stream()[1].category
                == TokenCategory::Semicolon ==> r == Ok::<Option<Node<Statement>>, ParserIssue>(
                Some(Node { value: Statement::Break, position: old(self).current().position }),
            ) && final(self).stream() == old(self).stream().skip(2),
            plain_assignment_ahead(old(self).stream()) ==> (r matches Ok(Some(n)) && n.value matches Statement::Assignment { identifier, value }
                && TokenValue::String(identifier.value) == old(self).stream()[0].value && value == operand_tree(old(self).stream()[2])
                && final(self).stream() == old(self).stream().skip(4)),
        decreases old(self).measure(), 39nat,
    {
        if let Some(statement) = self.parse_assign_or_call()? {
            return Ok(Some(statement));
        }
        if let Some(statement) = self.parse_if_statement()? {
            return Ok(Some(statement));
        }
        if let Some(statement) = self.parse_for_statement()? {
            return Ok(Some(statement));
        }
        if let Some(statement) = self.parse_switch_statement()? {
            return Ok(Some(statement));
        }
        if let Some(statement) = self.parse_return_statement()? {
            return Ok(Some(statement));
        }
        if let Some(statement) = self.parse_break_statement()? {
            return Ok(Some(statement));
        }
        if let Some(statement) = self.parse_variable_declaration()? {
            return Ok(Some(statement));
        }
        Ok(None)
    }

    pub fn parse_program_statement(&mut self) -> (r: Result<Option<Node<Statement>>, ParserIssue>)
        requires
            old(self).valid(),
        ensures
            r matches Ok(None) ==> (*final(self) == *old(self) && !spec_starts_program_statement(old(self).current().category)) || (
            spec_starts_program_statement(old(self).current().category) && spec_type_of(old(self).current().category) is None
                && old(self).gave_up_on(*final(self), old(self).current().category)),
            r matches Ok(Some(n)) ==> is_statement(beyond(old(self).taken(), final(self).taken()), n) || stuck_on(final(self).lexer_state().token(), TokenCategory::BraceOpen),
            final(self).valid(),
            final(self).measure() <= old(self).measure(),
            extends(old(self).taken(), final(self).taken()),
            r matches Ok(Some(_)) ==> final(self).measure() < old(self).measure(),
            !spec_starts_program_statement(old(self).current().category) ==> r == Ok::<Option<Node<Statement>>, ParserIssue>(None) && *final(self) == *old(self),
            plain_assignment_ahead(old(self).stream()) ==> (r matches Ok(Some(n)) && n.value matches Statement::Assignment { identifier, value }
                && TokenValue::String(identifier.value) == old(self).stream()[0].value && value == operand_tree(old(self).stream()[2])
                && final(self).stream() == old(self).stream().skip(4)),
        decreases old(self).measure(), 39nat,
    {
        if let Some(statement) = self.parse_assign_or_call()? {
            return Ok(Some(statement));
        }
        if let Some(statement) = self.parse_if_statement()? {
            return Ok(Some(statement));
        }
        if let Some(statement) = self.parse_for_statement()? {
            return Ok(Some(statement));
        }
        if let Some(statement) = self.parse_switch_statement()? {
            return Ok(Some(statement));
        }
        if let Some(statement) = self.parse_variable_declaration()? {
            return Ok(Some(statement));
        }
        Ok(None)
    }

    pub fn parse_assign_or_call(&mut self) -> (r: Result<Option<Node<Statement>>, ParserIssue>)
        requires
            old(self).valid(),
        ensures
            r matches Ok(None) ==> (*final(self) == *old(self) && old(self).current().category != TokenCategory::Identifier) || old(self).gave_up_on(*final(self), TokenCategory::Identifier),
            r matches Ok(Some(n)) ==> is_statement(beyond(old(self).taken(), final(self).taken()), n),
            final(self).valid(),
            final(self).measure() <= old(self).measure(),
            extends(old(self).taken(), final(self).taken()),
            old(self).current().category != TokenCategory::Identifier ==> r == Ok::<Option<Node<Statement>>, ParserIssue>(None) && *final(self) == *old(self),
            r matches Ok(Some(n)) ==> {
                &&& n.position == old(self).current().position
                &&& (n.value is Assignment || n.value is FunctionCall)
                &&& final(self).measure() < old(self).measure()
            },
            plain_assignment_ahead(old(self).stream()) ==> (r matches Ok(Some(n)) && n.value matches Statement::Assignment { identifier, value }
                && TokenValue::String(identifier.value) == old(self).stream()[0].value && value == operand_tree(old(self).stream()[2])
                && final(self).stream() == old(self).stream().skip(4)),
        decreases old(self).measure(), 30nat,
    {
        let ghost st = old(self).stream();
        let ghost plain = plain_assignment_ahead(st);
        proof {
            old(self).lemma_stream_front();
            if plain {
                lemma_skip_next(st, 0);
            }
        }
        let ghost t0 = self.taken();
        let identifier = match self.parse_identifier()? {
            Some(t) => t,
            None => {
                return Ok(None);
            },
        };
        let ghost t1 = self.taken();
        proof {
            lemma_beyond_push(t0, old(self).current());
            if plain {
                lemma_skip_next(st, 1);
                self.lemma_stream_front();
            }
        }
        let position = identifier.position;
        if let Some(eq) = self.consume_if_matches(TokenCategory::Assign)? {
            let ghost t2 = self.taken();
            proof {
                if plain {
                    lemma_skip_next(st, 1);
                    lemma_skip_next(st, 2);
                    self.lemma_stream_front();
                }
            }
            let expr = match self.parse_expression()? {
                Some(t) => t,
                None => {
                    return Err(self.create_parser_error(String::from_str("Couldn't create expression while parsing assignment.")));
                },
            };
            let ghost t3 = self.taken();
            proof {
                if plain {
                    lemma_skip_next(st, 2);
                    lemma_skip_next(st, 3);
                    self.lemma_stream_front();
                }
            }
            let node = Node { value: Statement::Assignment { identifier, value: expr }, position };
            let semi = self.consume_must_be(TokenCategory::Semicolon)?;
            proof {
                lemma_beyond_push(t1, eq);
                lemma_beyond_join(t0, t1, t2);
                lemma_beyond_join(t0, t2, t3);
                lemma_beyond_push(t3, semi);
                lemma_beyond_join(t0, t3, self.taken());
                let ts = beyond(t0, self.taken());
                assert(ts =~= seq![old(self).current(), eq] + beyond(t2, t3) + seq![semi]);
                assert(ts.subrange(2, ts.len() - 1) =~= beyond(t2, t3));
            }
            return Ok(Some(node));
        }
        if let Some(open) = self.consume_if_matches(TokenCategory::ParenOpen)? {
            let ghost t2 = self.taken();
            let arguments = self.parse_arguments()?;
            let ghost t3 = self.taken();
            let node = Node { value: Statement::FunctionCall { identifier, arguments }, position };
            let close = self.consume_must_be(TokenCategory::ParenClose)?;
            let ghost t4 = self.taken();
            let semi = self.consume_must_be(TokenCategory::Semicolon)?;
            proof {
                lemma_beyond_push(t1, open);
                lemma_beyond_join(t0, t1, t2);
                lemma_beyond_join(t0, t2, t3);
                lemma_beyond_push(t3, close);
                lemma_beyond_join(t0, t3, t4);
                lemma_beyond_push(t4, semi);
                lemma_beyond_join(t0, t4, self.taken());
                let ts = beyond(t0, self.taken());
                assert(ts =~= seq![old(self).current(), open] + beyond(t2, t3) + seq![close, semi]);
                assert(ts.subrange(2, ts.len() - 2) =~= beyond(t2, t3));
            }
            return Ok(Some(node));
        }
        return Err(self.create_parser_error(String::from_str("Couldn't create assignment or call.")))
    }

    #[verifier::rlimit(50)]
    #[verifier::spinoff_prover]
    pub fn parse_if_statement(&mut self) -> (r: Result<Option<Node<Statement>>, ParserIssue>)
        requires
            old(self).valid(),
        ensures
            r matches Ok(None) ==> (*final(self) == *old(self) && old(self).current().category != TokenCategory::If) || old(self).gave_up_on(*final(self), TokenCategory::If),
            r matches Ok(Some(n)) ==> is_statement(beyond(old(self).taken(), final(self).taken()), n) || stuck_on(final(self).lexer_state().token(), TokenCategory::BraceOpen),
            final(self).valid(),
            final(self).measure() <= old(self).measure(),
            extends(old(self).taken(), final(self).taken()),
            old(self).current().category != TokenCategory::If ==> r == Ok::<Option<Node<Statement>>, ParserIssue>(None) && *final(self) == *old(self),
            r matches Ok(Some(n)) ==> n.position == old(self).current().position && n.value is Conditional && final(self).measure() < old(self).measure(),
            old(self).current().category == TokenCategory::If && old(self).steps_cleanly() && old(self).stream()[1].category
                != TokenCategory::ParenOpen ==> (r matches Err(e) && e.message@ == with_position(
                unexpected_text(old(self).stream()[1], TokenCategory::ParenOpen),
                old(self).stream()[1].position,
            )),
        decreases old(self).measure(), 31nat,
    {
        let ghost t0 = self.taken();
        let if_token = match self.consume_must_be(TokenCategory::If) {
            Ok(t) => t,
            Err(_) => {
                return Ok(None);
            },
        };
        let ghost t1 = self.taken();
        proof {
            self.lemma_stream_front();
            old(self).lemma_stream_front();
        }
        let open = self.consume_must_be(TokenCategory::ParenOpen)?;
        let ghost t2 = self.taken();
        let condition = match self.parse_expression()? {
            Some(t) => t,
            None => {
                return Err(self.create_parser_error(String::from_str("Couldn't create expression while parsing if statement.")));
            },
        };
        let ghost t3 = self.taken();
        let close = self.consume_must_be(TokenCategory::ParenClose)?;
        let ghost t4 = self.taken();
        let true_block = match self.parse_statement_block()? {
            Some(t) => t,
            None => {
                return Err(self.create_parser_error(String::from_str("Couldn't create statement block while parsing if statement.")));
            },
        };
        let ghost t5 = self.taken();
        let false_block = match self.consume_if_matches(TokenCategory::Else)? {
            Some(else_token) => {
                let b = self.parse_statement_block()?;
                proof {
                    lemma_beyond_push(t5, else_token);
                    if b is Some {
                        lemma_split_at(t4, t5, else_token, self.taken());
                        assert(cut(beyond(t4, self.taken()), beyond(t4, t5).len() as int));
                    } else if self.taken() == t5.push(else_token) {
                        lemma_beyond_join(t4, t5, self.taken());
                        assert(beyond(t4, self.taken()).drop_last() =~= beyond(t4, t5));
                    }
                }
                b
            },
            None => None,
        };
        proof {
            lemma_beyond_push(t0, if_token);
            lemma_beyond_push(t1, open);
            lemma_beyond_join(t0, t1, t2);
            lemma_beyond_join(t2, t3, t4);
            lemma_beyond_join(t4, t5, self.taken());
            lemma_split_at(t2, t3, close, self.taken());
            assert(cut(beyond(t2, self.taken()), beyond(t2, t3).len() as int));
            lemma_beyond_join(t0, t2, self.taken());
            assert(beyond(t0, self.taken()).skip(2) =~= beyond(t2, self.taken()));
        }
        Ok(Some(Node {
            value: Statement::Conditional { condition, if_block: true_block, else_block: false_block },
            position: if_token.position,
        }))
    }

    #[verifier::rlimit(100)]
    #[verifier::spinoff_prover]
    pub fn parse_for_statement(&mut self) -> (r: Result<Option<Node<Statement>>, ParserIssue>)
        requires
            old(self).valid(),
        ensures
            r matches Ok(None) ==> (*final(self) == *old(self) && old(self).current().category != TokenCategory::For) || old(self).gave_up_on(*final(self), TokenCategory::For),
            r matches Ok(Some(n)) ==> is_statement(beyond(old(self).taken(), final(self).taken()), n),
            final(self).valid(),
            final(self).measure() <= old(self).measure(),
            extends(old(self).taken(), final(self).taken()),
            old(self).current().category != TokenCategory::For ==> r == Ok::<Option<Node<Statement>>, ParserIssue>(None) && *final(self) == *old(self),
            r matches Ok(Some(n)) ==> n.position == old(self).current().position && n.value is ForLoop && final(self).measure() < old(self).measure(),
            plain_for_ahead(old(self).stream()) ==> (r matches Ok(Some(n)) && n.value matches Statement::ForLoop {
                declaration: None,
                condition,
                assignment: None,
                block,
            } && condition == operand_tree(old(self).stream()[3]) && block.value.0@.len() == 0 && final(self).stream() == old(self).stream().skip(8)),
            for_without_declaration_ahead(old(self).stream()) ==> (r matches Err(e) && e.message@ == with_position(
                unexpected_text(old(self).stream()[2], TokenCategory::Semicolon),
                old(self).stream()[2].position,
            )),
            for_without_condition_ahead(old(self).stream()) ==> (r matches Err(e) && e.message@ == with_position(
                "Couldn't create expression while parsing for statement."@,
                old(self).stream()[3].position,
            )),
            for_without_close_ahead(old(self).stream()) ==> (r matches Err(e) && e.message@ == with_position(
                unexpected_text(old(self).stream()[5], TokenCategory::ParenClose),
                old(self).stream()[5].position,
            )),
            forall|n: int, k: int, m: int| #[trigger] counting_for_ahead(old(self).stream(), n, k, m) ==> (r matches Ok(Some(l))
                && counting_for_parts(old(self).stream(), n, k, m, l.value) && l.position == old(self).stream()[0].position
                && final(self).stream() == old(self).stream().skip(14 + n + k + m)),
        decreases old(self).measure(), 32nat,
    {
        let ghost st = old(self).stream();
        let ghost plain = plain_for_ahead(st);
        let ghost e1 = for_without_declaration_ahead(st);
        let ghost e2 = for_without_condition_ahead(st);
        let ghost e3 = for_without_close_ahead(st);
        let ghost full = exists|n: int, k: int, m: int| counting_for_ahead(st, n, k, m);
        let ghost picked: (int, int, int) = choose|n: int, k: int, m: int| counting_for_ahead(st, n, k, m);
        let ghost cn = picked.0;
        let ghost ck = picked.1;
        let ghost cm = picked.2;
        let ghost c = 8 + cn + ck;
        let ghost a = 11 + cn + ck + cm;
        proof {
            old(self).lemma_stream_front();
        }
        let ghost t0 = self.taken();
        let for_token = match self.consume_must_be(TokenCategory::For) {
            Ok(t) => t,
            Err(_) => {
                return Ok(None);
            },
        };
        let ghost t1 = self.taken();
        proof {
            if plain || e1 || e2 || e3 || full {
                lemma_skip_next(st, 0);
                lemma_skip_next(st, 1);
                self.lemma_stream_front();
            }
        }
        let open = self.consume_must_be(TokenCategory::ParenOpen)?;
        proof {
            if plain || e1 || e2 || e3 || full {
                lemma_skip_next(st, 1);
                lemma_skip_next(st, 2);
                self.lemma_stream_front();
            }
        }
        let ghost t2 = self.taken();
        let declaration = match self.parse_for_declaration() {
            Ok(d) => d,
            Err(_) => {
                return Err(self.create_parser_error(String::from_str("Couldn't create declaration while parsing for statement.")));
            },
        };
        let ghost t3 = self.taken();
        proof {
            if full {
                assert(st.skip(2).skip(4) =~= st.skip(6));
                lemma_skip_next(st, 6);
                self.lemma_stream_front();
                assert(declaration == Some(Box::new(initialized_declaration_tree(st.skip(2)))));
            }
        }
        let semi1 = self.consume_must_be(TokenCategory::Semicolon)?;
        proof {
            if plain || e2 || e3 {
                lemma_skip_next(st, 2);
                lemma_skip_next(st, 3);
                self.lemma_stream_front();
            }
            if plain || e3 {
                lemma_skip_next(st, 4);
            }
        }
        let ghost t4 = self.taken();
        let condition = match self.parse_expression()? {
            Some(t) => t,
            None => {
                return Err(self.create_parser_error(String::from_str("Couldn't create expression while parsing for statement.")));
            },
        };
        let ghost t5 = self.taken();
        proof {
            if full {
                assert(st.skip(7)[cn + 1 + ck] == st[c]);
                assert(st.skip(7).skip(cn + 1 + ck) =~= st.skip(c));
                assert(condition == relation_tree(st.skip(7), cn, ck));
                lemma_skip_next(st, c);
                self.lemma_stream_front();
            }
        }
        let semi2 = self.consume_must_be(TokenCategory::Semicolon)?;
        proof {
            if plain || e3 {
                lemma_skip_next(st, 4);
                lemma_skip_next(st, 5);
                self.lemma_stream_front();
            }
        }
        let ghost t6 = self.taken();
        let mut assignment: Option<Box<Node<Statement>>> = None;
        if self.current_token().category == TokenCategory::Identifier {
            let ghost id_token = self.current();
            proof {
                if full {
                    lemma_skip_next(st, c + 1);
                    self.lemma_stream_front();
                }
            }
            let identifier = match self.parse_identifier()? {
                Some(t) => t,
                None => {
                    return Err(self.create_parser_error(String::from_str("Couldn't create identifier while parsing for statement.")));
                },
            };
            let ghost t7 = self.taken();
            let position = identifier.position;
            proof {
                if full {
                    lemma_skip_next(st, c + 2);
                    self.lemma_stream_front();
                }
            }
            let eq = self.consume_must_be(TokenCategory::Assign)?;
            proof {
                if full {
                    lemma_skip_next(st, c + 3);
                    self.lemma_stream_front();
                    assert(st.skip(c + 3)[cm] == st[a]);
                }
            }
            let ghost t8 = self.taken();
            let expr = match self.parse_expression()? {
                Some(t) => t,
                None => {
                    return Err(self.create_parser_error(String::from_str("Couldn't create expression while parsing for statement.")));
                },
            };
            proof {
                lemma_beyond_push(t6, id_token);
                lemma_beyond_push(t7, eq);
                lemma_beyond_join(t6, t7, t8);
                lemma_beyond_join(t6, t8, self.taken());
                assert(beyond(t6, self.taken()) =~= seq![id_token, eq] + beyond(t8, self.taken()));
                assert(beyond(t6, self.taken()).skip(2) =~= beyond(t8, self.taken()));
            }
            proof {
                if full {
                    assert(st.skip(c + 3).skip(cm) =~= st.skip(a));
                    assert(expr == sum_tree(st.skip(c + 3).take(cm)));
                }
            }
            assignment = Some(Box::new(Node { value: Statement::Assignment { identifier, value: expr }, position }));
        } else {
            proof {
                lemma_beyond_none(t6);
            }
        }
        let ghost t9 = self.taken();
        proof {
            if full {
                lemma_skip_next(st, a);
                self.lemma_stream_front();
            }
        }
        let close = self.consume_must_be(TokenCategory::ParenClose)?;
        proof {
            if plain {
                lemma_skip_next(st, 5);
                lemma_skip_next(st, 6);
                self.lemma_stream_front();
                lemma_skip_next(st, 7);
            }
        }
        let ghost t10 = self.taken();
        proof {
            if full {
                lemma_skip_next(st, a + 1);
                lemma_skip_next(st, a + 2);
                self.lemma_stream_front();
            }
        }
        let block = match self.parse_statement_block()? {
            Some(t) => t,
            None => {
                return Err(self.create_parser_error(String::from_str("Couldn't create statement block while parsing for statement.")));
            },
        };
        proof {
            if declaration is None {
                lemma_beyond_none(t2);
            }
            lemma_for_tokens(t0, t2, t3, t4, t5, t6, t9, t10, self.taken(), for_token, open, semi1, semi2, close);
            if full {
                assert(st.skip(a + 1).skip(2) =~= st.skip(a + 3));
                assert forall|n: int, k: int, m: int| #[trigger] counting_for_ahead(st, n, k, m) implies n == cn && k == ck && m == cm by {
                    lemma_counting_for_unique(st, n, k, m, cn, ck, cm);
                }
            }
        }
        Ok(Some(Node { value: Statement::ForLoop { declaration, condition, assignment, block }, position: for_token.position }))
    }

    /// The declaration that may open a `for` statement.
    fn parse_for_declaration(&mut self) -> (r: Result<Option<Box<Node<Statement>>>, ParserIssue>)
        requires
            old(self).valid(),
        ensures
            final(self).valid(),
            final(self).measure() <= old(self).measure(),
            extends(old(self).taken(), final(self).taken()),
            r matches Ok(None) ==> *final(self) == *old(self),
            spec_type_of(old(self).current().category) is None ==> r == Ok::<Option<Box<Node<Statement>>>, ParserIssue>(None) && *final(self)
                == *old(self),
            r matches Ok(Some(d)) ==> is_declaration(beyond(old(self).taken(), final(self).taken()), *d) || stuck_on(
                final(self).lexer_state().token(),
                TokenCategory::Identifier,
            ),
            initialized_declaration_ahead(old(self).stream()) ==> r == Ok::<Option<Box<Node<Statement>>>, ParserIssue>(
                Some(Box::new(initialized_declaration_tree(old(self).stream()))),
            ) && final(self).stream() == old(self).stream().skip(4),
        decreases old(self).measure(), 31nat,
    {
        match self.parse_declaration() {
            Ok(Some(t)) => Ok(Some(Box::new(t))),
            Ok(None) => Ok(None),
            Err(e) => Err(e),
        }
    }

    pub fn parse_variable_declaration(&mut self) -> (r: Result<Option<Node<Statement>>, ParserIssue>)
        requires
            old(self).valid(),
        ensures
            r matches Ok(None) ==> *final(self) == *old(self) && spec_type_of(old(self).current().category) is None,
            r matches Ok(Some(n)) ==> is_statement(beyond(old(self).taken(), final(self).taken()), n),
            final(self).valid(),
            final(self).measure() <= old(self).measure(),
            extends(old(self).taken(), final(self).taken()),
            spec_type_of(old(self).current().category) is None ==> r == Ok::<Option<Node<Statement>>, ParserIssue>(None) && *final(self) == *old(self),
            r matches Ok(Some(n)) ==> n.position == old(self).current().position && n.value is Declaration && final(self).measure() < old(self).measure(),
            spec_type_of(old(self).current().category) is Some && clean_ahead(old(self).stream(), 3) && old(self).stream()[1].category
                == TokenCategory::Identifier && old(self).stream()[1].value is String && old(self).stream()[2].category == TokenCategory::Semicolon
                ==> (r matches Ok(Some(n)) && n.value matches Statement::Declaration { identifier, value: None, .. } && TokenValue::String(
                identifier.value,
            ) == old(self).stream()[1].value && final(self).stream() == old(self).stream().skip(3)),
        decreases old(self).measure(), 31nat,
    {
        let ghost t0 = self.taken();
        let declaration = match self.parse_declaration()? {
            Some(t) => t,
            None => {
                return Ok(None);
            },
        };
        proof {
            self.lemma_stream_front();
            old(self).lemma_stream_front();
            if spec_type_of(old(self).current().category) is Some && clean_ahead(old(self).stream(), 3) && old(self).stream()[1].category
                == TokenCategory::Identifier && old(self).stream()[1].value is String && old(self).stream()[2].category == TokenCategory::Semicolon {
                assert(old(self).stream().skip(2)[0] == old(self).stream()[2]);
                assert(old(self).stream().skip(2)[1] == old(self).stream()[3]);
                assert(old(self).stream().skip(2).skip(1) =~= old(self).stream().skip(3));
            }
        }
        let ghost t1 = self.taken();
        let semi = self.consume_must_be(TokenCategory::Semicolon)?;
        proof {
            lemma_beyond_push(t1, semi);
            lemma_beyond_join(t0, t1, self.taken());
            assert(beyond(t0, self.taken()).drop_last() =~= beyond(t0, t1));
        }
        Ok(Some(declaration))
    }

    pub fn parse_declaration(&mut self) -> (r: Result<Option<Node<Statement>>, ParserIssue>)
        requires
            old(self).valid(),
        ensures
            r matches Ok(None) ==> *final(self) == *old(self) && spec_type_of(old(self).current().category) is None,
            r matches Ok(Some(n)) ==> is_declaration(beyond(old(self).taken(), final(self).taken()), n) || stuck_on(final(self).lexer_state().token(), TokenCategory::Identifier),
            final(self).valid(),
            final(self).measure() <= old(self).measure(),
            extends(old(self).taken(), final(self).taken()),
            spec_type_of(old(self).current().category) is None ==> r == Ok::<Option<Node<Statement>>, ParserIssue>(None) && *final(self) == *old(self),
            r matches Ok(Some(n)) ==> {
                &&& n.position == old(self).current().position
                &&& n.value matches Statement::Declaration { var_type, .. }
                &&& spec_type_of(old(self).current().category) == Some(var_type.value)
                &&& final(self).measure() < old(self).measure()
            },
            spec_type_of(old(self).current().category) is Some && clean_ahead(old(self).stream(), 2) && old(self).stream()[1].category
                == TokenCategory::Identifier && old(self).stream()[1].value is String && old(self).stream()[2].category != TokenCategory::Assign
                ==> (r matches Ok(Some(n)) && n.value matches Statement::Declaration { identifier, value: None, .. } && TokenValue::String(
                identifier.value,
            ) == old(self).stream()[1].value && final(self).stream() == old(self).stream().skip(2)),
            initialized_declaration_ahead(old(self).stream()) ==> r == Ok::<Option<Node<Statement>>, ParserIssue>(
                Some(initialized_declaration_tree(old(self).stream())),
            ) && final(self).stream() == old(self).stream().skip(4),
        decreases old(self).measure(), 30nat,
    {
        let ghost t0 = self.taken();
        let declaration_type = match self.parse_type()? {
            Some(t) => t,
            None => {
                return Ok(None);
            },
        };
        proof {
            self.lemma_stream_front();
            old(self).lemma_stream_front();
            if spec_type_of(old(self).current().category) is Some && clean_ahead(old(self).stream(), 2) {
                assert(old(self).stream().skip(1)[1] == old(self).stream()[2]);
                assert(old(self).stream().skip(1)[0] == old(self).stream()[1]);
            }
        }
        let ghost t1 = self.taken();
        let ghost id_token = self.current();
        let position = declaration_type.position;
        let identifier = match self.parse_identifier()? {
            Some(t) => t,
            None => {
                return Err(self.create_parser_error(String::from_str("Couldn't create identifier while parsing variable declaration.")));
            },
        };
        proof {
            self.lemma_stream_front();
            if spec_type_of(old(self).current().category) is Some && clean_ahead(old(self).stream(), 2) && old(self).stream()[1].category
                == TokenCategory::Identifier && old(self).stream()[1].value is String {
                assert(self.stream() =~= old(self).stream().skip(2));
                assert(old(self).stream().skip(2)[0] == old(self).stream()[2]);
            }
            if initialized_declaration_ahead(old(self).stream()) {
                lemma_skip_next(old(self).stream(), 2);
                lemma_skip_next(old(self).stream(), 3);
                assert(self.steps_cleanly());
            }
        }
        let ghost t2 = self.taken();
        proof {
            lemma_beyond_push(t0, old(self).current());
            lemma_beyond_push(t1, id_token);
            lemma_beyond_join(t0, t1, t2);
            assert(beyond(t0, t2) =~= seq![old(self).current(), id_token]);
        }
        let value = match self.consume_if_matches(TokenCategory::Assign)? {
            Some(eq) => {
                let ghost t3 = self.taken();
                proof {
                    if initialized_declaration_ahead(old(self).stream()) {
                        self.lemma_stream_front();
                        lemma_skip_next(old(self).stream(), 3);
                        lemma_skip_next(old(self).stream(), 4);
                        assert(self.stream() == old(self).stream().skip(3));
                        assert(self.steps_cleanly());
                    }
                }
                let v = self.parse_expression()?;
                proof {
                    if initialized_declaration_ahead(old(self).stream()) {
                        assert(old(self).stream().skip(3).skip(1) =~= old(self).stream().skip(4));
                    }
                }
                proof {
                    lemma_beyond_push(t2, eq);
                    lemma_beyond_join(t0, t2, t3);
                    lemma_beyond_join(t0, t3, self.taken());
                    let ts = beyond(t0, self.taken());
                    assert(ts =~= seq![old(self).current(), id_token, eq] + beyond(t3, self.taken()));
                    assert(ts.skip(3) =~= beyond(t3, self.taken()));
                    if v is None && self.taken() == t3 {
                        lemma_beyond_none(t3);
                    }
                }
                v
            },
            None => None,
        };
        Ok(Some(Node { value: Statement::Declaration { var_type: declaration_type, identifier, value }, position }))
    }

    pub fn parse_return_statement(&mut self) -> (r: Result<Option<Node<Statement>>, ParserIssue>)
        requires
            old(self).valid(),
        ensures
            r matches Ok(None) ==> (*final(self) == *old(self) && old(self).current().category != TokenCategory::Return) || old(self).gave_up_on(*final(self), TokenCategory::Return),
            r matches Ok(Some(n)) ==> is_statement(beyond(old(self).taken(), final(self).taken()), n),
            final(self).valid(),
            final(self).measure() <= old(self).measure(),
            extends(old(self).taken(), final(self).taken()),
            old(self).current().category != TokenCategory::Return ==> r == Ok::<Option<Node<Statement>>, ParserIssue>(None) && *final(self) == *old(self),
            r matches Ok(Some(n)) ==> n.position == old(self).current().position && n.value is Return && final(self).measure() < old(self).measure(),
            old(self).current().category == TokenCategory::Return && clean_ahead(old(self).stream(), 2) && old(self).stream()[1].category
                == TokenCategory::Semicolon ==> r == Ok::<Option<Node<Statement>>, ParserIssue>(
                Some(Node { value: Statement::Return(None), position: old(self).current().position }),
            ) && final(self).stream() == old(self).stream().skip(2),
            old(self).current().category == TokenCategory::Return && old(self).steps_cleanly() && !spec_starts_expression(
                old(self).stream()[1],
            ) && old(self).stream()[1].category != TokenCategory::Semicolon ==> (r matches Err(e) && e.message@ == with_position(
                unexpected_text(old(self).stream()[1], TokenCategory::Semicolon),
                old(self).stream()[1].position,
            )),
        decreases old(self).measure(), 30nat,
    {
        let ghost t0 = self.taken();
        let token = match self.consume_must_be(TokenCategory::Return) {
            Ok(t) => t,
            Err(_) => {
                return Ok(None);
            },
        };
        let ghost t1 = self.taken();
        proof {
            self.lemma_stream_front();
            old(self).lemma_stream_front();
        }
        let returned_value = self.parse_expression()?;
        proof {
            if clean_ahead(old(self).stream(), 2) && old(self).stream()[1].category == TokenCategory::Semicolon {
                assert(self.stream().skip(1) =~= old(self).stream().skip(2));
            }
        }
        let ghost t2 = self.taken();
        let semi = self.consume_must_be(TokenCategory::Semicolon)?;
        proof {
            lemma_beyond_push(t0, token);
            lemma_beyond_join(t0, t1, t2);
            lemma_beyond_push(t2, semi);
            lemma_beyond_join(t0, t2, self.taken());
            let ts = beyond(t0, self.taken());
            assert(ts =~= seq![token] + beyond(t1, t2) + seq![semi]);
            assert(ts.subrange(1, ts.len() - 1) =~= beyond(t1, t2));
            if returned_value is None {
                lemma_beyond_none(t1);
            }
        }
        Ok(Some(Node { value: Statement::Return(returned_value), position: token.position }))
    }

    pub fn parse_break_statement(&mut self) -> (r: Result<Option<Node<Statement>>, ParserIssue>)
        requires
            old(self).valid(),
        ensures
            r matches Ok(None) ==> (*final(self) == *old(self) && old(self).current().category != TokenCategory::Break) || old(self).gave_up_on(*final(self), TokenCategory::Break),
            r matches Ok(Some(n)) ==> is_statement(beyond(old(self).taken(), final(self).taken()), n),
            final(self).valid(),
            final(self).measure() <= old(self).measure(),
            extends(old(self).taken(), final(self).taken()),
            old(self).current().category != TokenCategory::Break ==> r == Ok::<Option<Node<Statement>>, ParserIssue>(None) && *final(self) == *old(self),
            r matches Ok(Some(n)) ==> n.position == old(self).current().position && n.value is Break && final(self).measure() < old(self).measure(),
            old(self).current().category == TokenCategory::Break && clean_ahead(old(self).stream(), 2) && old(self).stream()[1].category
                == TokenCategory::Semicolon ==> r == Ok::<Option<Node<Statement>>, ParserIssue>(
                Some(Node { value: Statement::Break, position: old(self).current().position }),
            ) && final(self).stream() == old(self).stream().skip(2),
            old(self).current().category == TokenCategory::Break && old(self).steps_cleanly() && old(self).stream()[1].category
                != TokenCategory::Semicolon ==> (r matches Err(e) && e.message@ == with_position(
                unexpected_text(old(self).stream()[1], TokenCategory::Semicolon),
                old(self).stream()[1].position,
            )),
    {
        let ghost t0 = self.taken();
        let token = match self.consume_must_be(TokenCategory::Break) {
            Ok(t) => t,
            Err(_) => {
                return Ok(None);
            },
        };
        let ghost t1 = self.taken();
        proof {
            self.lemma_stream_front();
            old(self).lemma_stream_front();
        }
        proof {
            self.lemma_stream_front();
            old(self).lemma_stream_front();
            if clean_ahead(old(self).stream(), 2) && old(self).stream()[1].category == TokenCategory::Semicolon {
                assert(self.stream().skip(1) =~= old(self).stream().skip(2));
            }
        }
        let semi = self.consume_must_be(TokenCategory::Semicolon)?;
        proof {
            lemma_beyond_push(t0, token);
            lemma_beyond_push(t1, semi);
            lemma_beyond_join(t0, t1, self.taken());
            assert(beyond(t0, self.taken()) =~= seq![token, semi]);
        }
        Ok(Some(Node { value: Statement::Break, position: token.position }))
    }

    #[verifier::spinoff_prover]
    pub fn parse_switch_statement(&mut self) -> (r: Result<Option<Node<Statement>>, ParserIssue>)
        requires
            old(self).valid(),
        ensures
            r matches Ok(None) ==> (*final(self) == *old(self) && old(self).current().category != TokenCategory::Switch) || old(self).gave_up_on(*final(self), TokenCategory::Switch),
            r matches Ok(Some(n)) ==> is_statement(beyond(old(self).taken(), final(self).taken()), n),
            final(self).valid(),
            final(self).measure() <= old(self).measure(),
            extends(old(self).taken(), final(self).taken()),
            old(self).current().category != TokenCategory::Switch ==> r == Ok::<Option<Node<Statement>>, ParserIssue>(None) && *final(self) == *old(self),
            r matches Ok(Some(n)) ==> n.position == old(self).current().position && n.value is Switch && final(self).measure() < old(self).measure(),
            old(self).current().category == TokenCategory::Switch && old(self).steps_cleanly() && old(self).stream()[1].category
                != TokenCategory::ParenOpen ==> (r matches Err(e) && e.message@ == with_position(
                unexpected_text(old(self).stream()[1], TokenCategory::ParenOpen),
                old(self).stream()[1].position,
            )),
        decreases old(self).measure(), 33nat,
    {
        let ghost t0 = self.taken();
        let switch_token = match self.consume_must_be(TokenCategory::Switch) {
            Ok(t) => t,
            Err(_) => {
                return Ok(None);
            },
        };
        let ghost t1 = self.taken();
        proof {
            self.lemma_stream_front();
            old(self).lemma_stream_front();
        }
        let open = self.consume_must_be(TokenCategory::ParenOpen)?;
        let ghost t2 = self.taken();
        let switch_expressions = self.parse_switch_expressions()?;
        let ghost t3 = self.taken();
        let close = self.consume_must_be(TokenCategory::ParenClose)?;
        let ghost t4 = self.taken();
        let brace = self.consume_must_be(TokenCategory::BraceOpen)?;
        let ghost t5 = self.taken();
        let mut switch_cases: Vec<Node<SwitchCase>> = Vec::new();
        proof {
            lemma_beyond_none(t5);
        }
        while self.current_token().category != TokenCategory::BraceClose
            invariant
                self.valid(),
                self.measure() < old(self).measure(),
                extends(old(self).taken(), self.taken()),
                old(self).current().category == TokenCategory::Switch,
                old(self).steps_cleanly() ==> old(self).stream()[1].category == TokenCategory::ParenOpen,
                extends(t5, self.taken()),
                is_switch_cases(beyond(t5, self.taken()), switch_cases@),
            decreases self.measure(),
        {
            let ghost tb = self.taken();
            let switch_case = match self.parse_switch_case()? {
                Some(t) => t,
                None => {
                    return Err(self.create_parser_error(String::from_str("Couldn't create switch case while parsing switch statement.")));
                },
            };
            let ghost before = switch_cases@;
            switch_cases.push(switch_case);
            proof {
                assert(switch_cases@.drop_last() =~= before);
                lemma_split_between(t5, tb, self.taken());
            }
        }
        let ghost t6 = self.taken();
        let end = self.consume_must_be(TokenCategory::BraceClose)?;
        proof {
            lemma_switch_tokens(t0, t2, t3, t5, t6, self.taken(), switch_token, open, close, brace, end);
        }
        Ok(Some(Node { value: Statement::Switch { expressions: switch_expressions, cases: switch_cases }, position: switch_token.position }))
    }

    pub fn parse_switch_expressions(&mut self) -> (r: Result<Vec<Node<SwitchExpression>>, ParserIssue>)
        requires
            old(self).valid(),
        ensures
            r matches Ok(es) ==> is_switch_expressions(beyond(old(self).taken(), final(self).taken()), es@) || stuck_on(final(self).lexer_state().token(), TokenCategory::Identifier),
            !spec_starts_expression(old(self).current()) ==> (r matches Ok(es) && es@.len() == 0 && *final(self) == *old(self)),
            final(self).valid(),
            final(self).measure() <= old(self).measure(),
            extends(old(self).taken(), final(self).taken()),
        decreases old(self).measure(), 22nat,
    {
        let mut switch_expressions: Vec<Node<SwitchExpression>> = Vec::new();
        let expression = match self.parse_switch_expression()? {
            Some(t) => t,
            None => {
                proof {
                    lemma_beyond_none(old(self).taken());
                }
                return Ok(switch_expressions);
            },
        };
        switch_expressions.push(expression);
        proof {
            assert(switch_expressions@ =~= seq![expression]);
        }
        loop
            invariant
                self.valid(),
                self.measure() <= old(self).measure(),
                extends(old(self).taken(), self.taken()),
                switch_expressions@.len() >= 1,
                spec_starts_expression(old(self).current()),
                is_switch_expressions(beyond(old(self).taken(), self.taken()), switch_expressions@) || stuck_on(
                    self.lexer_state().token(),
                    TokenCategory::Identifier,
                ),
            decreases self.measure(),
        {
            let ghost tb = self.taken();
            let comma = match self.consume_if_matches(TokenCategory::Comma)? {
                Some(c) => c,
                None => {
                    break;
                },
            };
            let expression = match self.parse_switch_expression()? {
                Some(t) => t,
                None => {
                    return Err(self.create_parser_error(String::from_str("Couldn't create swicth expression while parsing switch expressions.")));
                },
            };
            let ghost before = switch_expressions@;
            switch_expressions.push(expression);
            proof {
                assert(switch_expressions@.drop_last() =~= before);
                if is_switch_expression(beyond(tb.push(comma), self.taken()), expression) {
                    lemma_split_at(old(self).taken(), tb, comma, self.taken());
                    assert(cut(beyond(old(self).taken(), self.taken()), beyond(old(self).taken(), tb).len() as int));
                }
            }
        }
        Ok(switch_expressions)
    }

    pub fn parse_switch_expression(&mut self) -> (r: Result<Option<Node<SwitchExpression>>, ParserIssue>)
        requires
            old(self).valid(),
        ensures
            r matches Ok(None) ==> (*final(self) == *old(self) && !spec_starts_expression(old(self).current())) || old(self).gave_up_on(*final(self), TokenCategory::Identifier),
            r matches Ok(Some(e)) ==> is_switch_expression(beyond(old(self).taken(), final(self).taken()), e) || stuck_on(final(self).lexer_state().token(), TokenCategory::Identifier),
            final(self).valid(),
            final(self).measure() <= old(self).measure(),
            extends(old(self).taken(), final(self).taken()),
            !spec_starts_expression(old(self).current()) ==> r == Ok::<Option<Node<SwitchExpression>>, ParserIssue>(None) && *final(self) == *old(self),
        decreases old(self).measure(), 21nat,
    {
        let ghost t0 = self.taken();
        let expression = match self.parse_expression()? {
            Some(t) => t,
            None => {
                return Ok(None);
            },
        };
        let ghost t1 = self.taken();
        let position = expression.position;
        let mut alias = None;
        if let Some(colon) = self.consume_if_matches(TokenCategory::Colon)? {
            let ghost t2 = self.taken();
            let ghost id_token = self.current();
            alias = self.parse_identifier()?;
            proof {
                lemma_beyond_push(t1, colon);
                lemma_beyond_join(t0, t1, t2);
                if alias is Some {
                    lemma_beyond_push(t2, id_token);
                    lemma_beyond_join(t0, t2, self.taken());
                    let ts = beyond(t0, self.taken());
                    assert(ts =~= beyond(t0, t1) + seq![colon, id_token]);
                    assert(ts.take(ts.len() - 2) =~= beyond(t0, t1));
                } else if self.taken() == t2 {
                    assert(beyond(t0, self.taken()).drop_last() =~= beyond(t0, t1));
                }
            }
        }
        Ok(Some(Node { value: SwitchExpression { expression, alias }, position }))
    }

    pub fn parse_switch_case(&mut self) -> (r: Result<Option<Node<SwitchCase>>, ParserIssue>)
        requires
            old(self).valid(),
        ensures
            r matches Ok(None) ==> (*final(self) == *old(self) && old(self).current().category != TokenCategory::ParenOpen) || old(self).gave_up_on(*final(self), TokenCategory::ParenOpen),
            r matches Ok(Some(c)) ==> is_switch_case(beyond(old(self).taken(), final(self).taken()), c),
            final(self).valid(),
            final(self).measure() <= old(self).measure(),
            extends(old(self).taken(), final(self).taken()),
            old(self).current().category != TokenCategory::ParenOpen ==> r == Ok::<Option<Node<SwitchCase>>, ParserIssue>(None) && *final(self) == *old(self),
            r matches Ok(Some(n)) ==> n.position == old(self).current().position && final(self).measure() < old(self).measure(),
        decreases old(self).measure(), 30nat,
    {
        let ghost t0 = self.taken();
        let paren_open_token = match self.consume_must_be(TokenCategory::ParenOpen) {
            Ok(t) => t,
            Err(_) => {
                return Ok(None);
            },
        };
        let ghost t1 = self.taken();
        let condition = match self.parse_expression()? {
            Some(t) => t,
            None => {
                return Err(self.create_parser_error(String::from_str("Couldn't create expression while parsing switch case.")));
            },
        };
        let ghost t2 = self.taken();
        let close = self.consume_must_be(TokenCategory::ParenClose)?;
        let ghost t3 = self.taken();
        let arrow = self.consume_must_be(TokenCategory::Arrow)?;
        let ghost t4 = self.taken();
        let block = match self.parse_statement_block()? {
            Some(t) => t,
            None => {
                return Err(self.create_parser_error(String::from_str("Couldn't create statement block while parsing switch case.")));
            },
        };
        proof {
            lemma_beyond_push(t0, paren_open_token);
            lemma_beyond_join(t0, t1, t2);
            lemma_beyond_push(t2, close);
            lemma_beyond_push(t3, arrow);
            lemma_beyond_join(t2, t3, t4);
            lemma_beyond_join(t0, t2, t4);
            lemma_beyond_join(t0, t4, self.taken());
            let ts = beyond(t0, self.taken());
            let i: int = 1 + beyond(t1, t2).len() as int;
            assert(ts =~= seq![paren_open_token] + beyond(t1, t2) + seq![close, arrow] + beyond(t4, self.taken()));
            assert(ts.subrange(1, i) =~= beyond(t1, t2));
            assert(ts.skip(i + 2) =~= beyond(t4, self.taken()));
            assert(cut(ts, i));
        }
        Ok(Some(Node { value: SwitchCase { condition, block }, position: paren_open_token.position }))
    }

    pub fn parse_arguments(&mut self) -> (r: Result<Vec<Node<Argument>>, ParserIssue>)
        requires
            old(self).valid(),
        ensures
            r matches Ok(args) ==> is_arguments(beyond(old(self).taken(), final(self).taken()), args@) || (args@.len() == 0
                && stuck_on(final(self).lexer_state().token(), TokenCategory::Identifier)),
            old(self).current().category != TokenCategory::Reference && !spec_starts_expression(old(self).current()) ==> (r matches Ok(args)
                && args@.len() == 0 && *final(self) == *old(self)),
            final(self).valid(),
            final(self).measure() <= old(self).measure(),
            extends(old(self).taken(), final(self).taken()),
        decreases old(self).measure(), 24nat,
    {
        let mut arguments: Vec<Node<Argument>> = Vec::new();
        let argument = match self.parse_argument()? {
            Some(t) => t,
            None => {
                proof {
                    if self.taken() == old(self).taken() {
                        lemma_beyond_none(old(self).taken());
                    } else {
                        lemma_beyond_push(old(self).taken(), old(self).current());
                    }
                }
                return Ok(arguments);
            },
        };
        arguments.push(argument);
        proof {
            assert(arguments@ =~= seq![argument]);
        }
        loop
            invariant
                self.valid(),
                self.measure() <= old(self).measure(),
                extends(old(self).taken(), self.taken()),
                arguments@.len() >= 1,
                old(self).current().category == TokenCategory::Reference || spec_starts_expression(old(self).current()),
                is_arguments(beyond(old(self).taken(), self.taken()), arguments@),
            decreases self.measure(),
        {
            let ghost tb = self.taken();
            let comma = match self.consume_if_matches(TokenCategory::Comma)? {
                Some(c) => c,
                None => {
                    break;
                },
            };
            let argument = match self.parse_argument()? {
                Some(t) => t,
                None => {
                    return Err(self.create_parser_error(String::from_str("Couldn't create argument while parsing arguments.")));
                },
            };
            let ghost before = arguments@;
            arguments.push(argument);
            proof {
                lemma_split_at(old(self).taken(), tb, comma, self.taken());
                assert(cut(beyond(old(self).taken(), self.taken()), beyond(old(self).taken(), tb).len() as int));
                assert(arguments@.drop_last() =~= before);
            }
        }
        Ok(arguments)
    }

    pub fn parse_argument(&mut self) -> (r: Result<Option<Node<Argument>>, ParserIssue>)
        requires
            old(self).valid(),
        ensures
            r matches Ok(None) ==> final(self).taken() == old(self).taken() || (old(self).current().category
                == TokenCategory::Reference && final(self).taken() == old(self).taken().push(old(self).current()))
                || stuck_on(final(self).lexer_state().token(), TokenCategory::Identifier),
            r matches Ok(Some(a)) ==> is_argument(beyond(old(self).taken(), final(self).taken()), a),
            final(self).valid(),
            final(self).measure() <= old(self).measure(),
            extends(old(self).taken(), final(self).taken()),
            r matches Ok(Some(n)) ==> n.position == n.value.value.position,
            old(self).current().category != TokenCategory::Reference && !spec_starts_expression(old(self).current()) ==> r == Ok::<
                Option<Node<Argument>>,
                ParserIssue,
            >(None) && *final(self) == *old(self),
        decreases old(self).measure(), 23nat,
    {
        let ghost t0 = self.taken();
        let ghost first = self.current();
        let passed_by = match self.consume_if_matches(TokenCategory::Reference)? {
            Some(_) => PassedBy::Reference,
            None => PassedBy::Value,
        };
        let ghost t1 = self.taken();
        let expression = match self.parse_expression()? {
            Some(t) => t,
            None => {
                return Ok(None);
            },
        };
        proof {
            if passed_by == PassedBy::Reference {
                lemma_beyond_push(t0, first);
                lemma_beyond_join(t0, t1, self.taken());
                assert(beyond(t0, self.taken()).skip(1) =~= beyond(t1, self.taken()));
            }
        }
        let position = expression.position;
        Ok(Some(Node { value: Argument { value: expression, passed_by }, position }))
    }

    pub fn parse_expression(&mut self) -> (r: Result<Option<Node<Expression>>, ParserIssue>)
        requires
            old(self).valid(),
        ensures
            r matches Ok(Some(_)) ==> final(self).current().category != TokenCategory::Or,
            r matches Ok(None) ==> (*final(self) == *old(self) && !spec_starts_expression(old(self).current())) || old(self).gave_up_on(*final(self), TokenCategory::Identifier),
            r matches Ok(Some(n)) ==> is_expression(beyond(old(self).taken(), final(self).taken()), n),
            final(self).valid(),
            final(self).measure() <= old(self).measure(),
            extends(old(self).taken(), final(self).taken()),
            !spec_starts_expression(old(self).current()) ==> r == Ok::<Option<Node<Expression>>, ParserIssue>(None) && *final(self) == *old(self),
            simple_operand(old(self).current()) && old(self).steps_cleanly() && ends_expression(old(self).stream()[1]) ==> r == Ok::<
                Option<Node<Expression>>,
                ParserIssue,
            >(Some(operand_tree(old(self).current()))) && final(self).stream() == old(self).stream().skip(1),
            forall|n: int| #[trigger] sum_ahead(old(self).stream(), n) && ends_expression(old(self).stream()[n]) ==> r == Ok::<
                Option<Node<Expression>>,
                ParserIssue,
            >(Some(sum_tree(old(self).stream().take(n)))) && final(self).stream() == old(self).stream().skip(n),
            forall|n: int, k: int| #[trigger] relation_ahead(old(self).stream(), n, k) && ends_expression(old(self).stream()[n + 1 + k]) ==> r
                == Ok::<Option<Node<Expression>>, ParserIssue>(Some(relation_tree(old(self).stream(), n, k))) && final(self).stream()
                == old(self).stream().skip(n + 1 + k),
        decreases old(self).measure(), 20nat,
    {
        let mut left_side = match self.parse_concatenation_term()? {
            Some(t) => t,
            None => {
                return Ok(None);
            },
        };
        let mut current_token = self.current_token();
        let ghost st = old(self).stream();
        proof {
            self.lemma_stream_front();
        }
        while current_token.category == TokenCategory::Or
            invariant
                self.valid(),
                self.measure() <= old(self).measure(),
                extends(old(self).taken(), self.taken()),
                current_token == self.current(),
                spec_starts_expression(old(self).current()),
                is_expression(beyond(old(self).taken(), self.taken()), left_side),
                simple_operand(old(self).current()) && old(self).steps_cleanly() && ends_expression(old(self).stream()[1]) ==> left_side
                    == operand_tree(old(self).current()) && self.stream() == old(self).stream().skip(1),
                st == old(self).stream(),
                forall|n: int| #[trigger] sum_ahead(st, n) && ends_expression(st[n]) ==> left_side == sum_tree(st.take(n)) && self.stream()
                    == st.skip(n),
                forall|n: int, k: int| #[trigger] relation_ahead(st, n, k) && ends_expression(st[n + 1 + k]) ==> left_side == relation_tree(st, n, k)
                    && self.stream() == st.skip(n + 1 + k),
            decreases self.measure(),
        {
            proof {
                self.lemma_stream_front();
                old(self).lemma_stream_front();
            }
            proof {
                assert forall|n: int| #[trigger] sum_ahead(st, n) && ends_expression(st[n]) implies false by {
                    assert(st.skip(n)[0] == st[n]);
                }
                assert forall|n: int, k: int| #[trigger] relation_ahead(st, n, k) && ends_expression(st[n + 1 + k]) implies false by {
                    assert(st.skip(n + 1 + k)[0] == st[n + 1 + k]);
                }
            }
            let ghost tb = self.taken();
            let ghost left = left_side;
            self.next_token()?;
            proof {
                assert(tb + token_seq(Some(current_token)) =~= tb.push(current_token));
            }
            let right_side = match self.parse_concatenation_term()? {
                Some(t) => t,
                None => {
                    return Err(self.create_parser_error(String::from_str("Couldn't create concatenation term while parsing expression.")));
                },
            };
            let expression_type = Expression::Alternative(Box::new(left_side), Box::new(right_side));
            left_side = Node { value: expression_type, position: current_token.position };
            proof {
                lemma_split_at(old(self).taken(), tb, current_token, self.taken());
                assert(cut(beyond(old(self).taken(), self.taken()), beyond(old(self).taken(), tb).len() as int));
            }
            current_token = self.current_token();
        }
        Ok(Some(left_side))
    }

    #[verifier::rlimit(40)]
    pub fn parse_concatenation_term(&mut self) -> (r: Result<Option<Node<Expression>>, ParserIssue>)
        requires
            old(self).valid(),
        ensures
            r matches Ok(Some(_)) ==> final(self).current().category != TokenCategory::And,
            r matches Ok(None) ==> (*final(self) == *old(self) && !spec_starts_expression(old(self).current())) || old(self).gave_up_on(*final(self), TokenCategory::Identifier),
            r matches Ok(Some(n)) ==> is_concatenation(beyond(old(self).taken(), final(self).taken()), n),
            final(self).valid(),
            final(self).measure() <= old(self).measure(),
            extends(old(self).taken(), final(self).taken()),
            !spec_starts_expression(old(self).current()) ==> r == Ok::<Option<Node<Expression>>, ParserIssue>(None) && *final(self) == *old(self),
            simple_operand(old(self).current()) && old(self).steps_cleanly() && ends_expression(old(self).stream()[1]) ==> r == Ok::<
                Option<Node<Expression>>,
                ParserIssue,
            >(Some(operand_tree(old(self).current()))) && final(self).stream() == old(self).stream().skip(1),
            forall|n: int| #[trigger] sum_ahead(old(self).stream(), n) && ends_expression(old(self).stream()[n]) ==> r == Ok::<
                Option<Node<Expression>>,
                ParserIssue,
            >(Some(sum_tree(old(self).stream().take(n)))) && final(self).stream() == old(self).stream().skip(n),
            forall|n: int, k: int| #[trigger] relation_ahead(old(self).stream(), n, k) && ends_expression(old(self).stream()[n + 1 + k]) ==> r
                == Ok::<Option<Node<Expression>>, ParserIssue>(Some(relation_tree(old(self).stream(), n, k))) && final(self).stream()
                == old(self).stream().skip(n + 1 + k),
        decreases old(self).measure(), 19nat,
    {
        let mut left_side = match self.parse_relation_term()? {
            Some(t) => t,
            None => {
                return Ok(None);
            },
        };
        let mut current_token = self.current_token();
        let ghost st = old(self).stream();
        proof {
            self.lemma_stream_front();
        }
        while current_token.category == TokenCategory::And
            invariant
                self.valid(),
                self.measure() <= old(self).measure(),
                extends(old(self).taken(), self.taken()),
                current_token == self.current(),
                spec_starts_expression(old(self).current()),
                is_concatenation(beyond(old(self).taken(), self.taken()), left_side),
                simple_operand(old(self).current()) && old(self).steps_cleanly() && ends_expression(old(self).stream()[1]) ==> left_side
                    == operand_tree(old(self).current()) && self.stream() == old(self).stream().skip(1),
                st == old(self).stream(),
                forall|n: int| #[trigger] sum_ahead(st, n) && ends_expression(st[n]) ==> left_side == sum_tree(st.take(n)) && self.stream()
                    == st.skip(n),
                forall|n: int, k: int| #[trigger] relation_ahead(st, n, k) && ends_expression(st[n + 1 + k]) ==> left_side == relation_tree(st, n, k)
                    && self.stream() == st.skip(n + 1 + k),
            decreases self.measure(),
        {
            proof {
                self.lemma_stream_front();
                old(self).lemma_stream_front();
            }
            proof {
                assert forall|n: int| #[trigger] sum_ahead(st, n) && ends_expression(st[n]) implies false by {
                    assert(st.skip(n)[0] == st[n]);
                }
                assert forall|n: int, k: int| #[trigger] relation_ahead(st, n, k) && ends_expression(st[n + 1 + k]) implies false by {
                    assert(st.skip(n + 1 + k)[0] == st[n + 1 + k]);
                }
            }
            let ghost tb = self.taken();
            let ghost left = left_side;
            self.next_token()?;
            proof {
                assert(tb + token_seq(Some(current_token)) =~= tb.push(current_token));
            }
            let right_side = match self.parse_relation_term()? {
                Some(t) => t,
                None => {
                    return Err(self.create_parser_error(String::from_str("Couldn't create relation term while parsing concatenation term.")));
                },
            };
            let expression_type = Expression::Concatenation(Box::new(left_side), Box::new(right_side));
            left_side = Node { value: expression_type, position: current_token.position };
            proof {
                lemma_split_at(old(self).taken(), tb, current_token, self.taken());
                assert(cut(beyond(old(self).taken(), self.taken()), beyond(old(self).taken(), tb).len() as int));
            }
            current_token = self.current_token();
        }
        Ok(Some(left_side))
    }

    pub fn parse_additive_term(&mut self) -> (r: Result<Option<Node<Expression>>, ParserIssue>)
        requires
            old(self).valid(),
        ensures
            r matches Ok(Some(_)) ==> final(self).current().category != TokenCategory::Plus && final(self).current().category != TokenCategory::Minus,
            r matches Ok(None) ==> (*final(self) == *old(self) && !spec_starts_expression(old(self).current())) || old(self).gave_up_on(*final(self), TokenCategory::Identifier),
            r matches Ok(Some(n)) ==> is_additive(beyond(old(self).taken(), final(self).taken()), n),
            final(self).valid(),
            final(self).measure() <= old(self).measure(),
            extends(old(self).taken(), final(self).taken()),
            !spec_starts_expression(old(self).current()) ==> r == Ok::<Option<Node<Expression>>, ParserIssue>(None) && *final(self) == *old(self),
            forall|n: int| #[trigger] sum_ahead(old(self).stream(), n) ==> r == Ok::<Option<Node<Expression>>, ParserIssue>(
                Some(sum_tree(old(self).stream().take(n))),
            ) && final(self).stream() == old(self).stream().skip(n),
        decreases old(self).measure(), 17nat,
    {
        let mut left_side = match self.parse_multiplicative_term()? {
            Some(t) => t,
            None => {
                return Ok(None);
            },
        };
        let mut current_token = self.current_token();
        let ghost st = old(self).stream();
        let ghost summing = exists|n: int| sum_ahead(st, n);
        let ghost end = choose|n: int| sum_ahead(st, n);
        let ghost mut j: int = 1;
        proof {
            old(self).lemma_stream_front();
            if summing {
                assert(simple_operand(st[0]));
                assert(sum_tree(st.take(1)) == operand_tree(st[0]));
            }
        }
        while current_token.category == TokenCategory::Plus || current_token.category == TokenCategory::Minus
            invariant
                self.valid(),
                self.measure() <= old(self).measure(),
                extends(old(self).taken(), self.taken()),
                current_token == self.current(),
                spec_starts_expression(old(self).current()),
                is_additive(beyond(old(self).taken(), self.taken()), left_side),
                st == old(self).stream(),
                summing == (exists|n: int| sum_ahead(st, n)),
                summing ==> sum_ahead(st, end),
                summing ==> {
                    &&& 1 <= j <= end
                    &&& j % 2 == 1
                    &&& left_side == sum_tree(st.take(j))
                    &&& self.stream() == st.skip(j)
                },
            decreases self.measure(),
        {
            proof {
                self.lemma_stream_front();
                if summing {
                    assert(st.skip(j)[0] == st[j]);
                    if j == end {
                        assert(!is_sign(st[end]));
                    }
                    assert(j < end);
                    assert(simple_operand(st[j + 1]));
                    assert(st.skip(j)[1] == st[j + 1]);
                    if j + 2 < end {
                        assert(is_sign(st[j + 2]));
                    }
                    assert(ends_operand(st[j + 2]));
                    assert(self.steps_cleanly());
                }
            }
            let ghost tb = self.taken();
            let ghost left = left_side;
            self.next_token()?;
            proof {
                assert(tb + token_seq(Some(current_token)) =~= tb.push(current_token));
                if summing {
                    assert(self.stream() == st.skip(j + 1));
                    self.lemma_stream_front();
                    assert(st.skip(j + 1)[0] == st[j + 1]);
                    assert(st.skip(j + 1)[1] == st[j + 2]);
                    assert(simple_operand(self.current()) && self.steps_cleanly() && ends_operand(self.stream()[1]));
                }
            }
            let right_side = match self.parse_multiplicative_term()? {
                Some(t) => t,
                None => {
                    return Err(self.create_parser_error(String::from_str("Couldn't create multiplicative term while parsing additive term.")));
                },
            };
            let expression_type = if current_token.category == TokenCategory::Minus { Expression::Subtraction(Box::new(left_side), Box::new(right_side)) } else { Expression::Addition(Box::new(left_side), Box::new(right_side)) };
            left_side = Node { value: expression_type, position: current_token.position };
            proof {
                lemma_split_at(old(self).taken(), tb, current_token, self.taken());
                assert(cut(beyond(old(self).taken(), self.taken()), beyond(old(self).taken(), tb).len() as int));
                if summing {
                    assert(self.stream() =~= st.skip(j + 2));
                    assert(st.take(j + 2).take(j) =~= st.take(j));
                    assert(st.take(j + 2)[j] == st[j]);
                    assert(st.take(j + 2)[j + 1] == st[j + 1]);
                    assert(left_side == sum_tree(st.take(j + 2)));
                }
                j = j + 2;
            }
            current_token = self.current_token();
        }
        proof {
            if summing {
                self.lemma_stream_front();
                assert(st.skip(j)[0] == st[j]);
                if j < end {
                    assert(is_sign(st[j]));
                }
                assert forall|n: int| #[trigger] sum_ahead(st, n) implies n == end by {
                    if n < end {
                        assert(is_sign(st[n]));
                    } else if end < n {
                        assert(is_sign(st[end]));
                    }
                }
            }
        }
        Ok(Some(left_side))
    }

    pub fn parse_multiplicative_term(&mut self) -> (r: Result<Option<Node<Expression>>, ParserIssue>)
        requires
            old(self).valid(),
        ensures
            r matches Ok(Some(_)) ==> final(self).current().category != TokenCategory::Multiply && final(self).current().category != TokenCategory::Divide,
            r matches Ok(None) ==> (*final(self) == *old(self) && !spec_starts_expression(old(self).current())) || old(self).gave_up_on(*final(self), TokenCategory::Identifier),
            r matches Ok(Some(n)) ==> is_multiplicative(beyond(old(self).taken(), final(self).taken()), n),
            final(self).valid(),
            final(self).measure() <= old(self).measure(),
            extends(old(self).taken(), final(self).taken()),
            !spec_starts_expression(old(self).current()) ==> r == Ok::<Option<Node<Expression>>, ParserIssue>(None) && *final(self) == *old(self),
            simple_operand(old(self).current()) && old(self).steps_cleanly() && ends_operand(old(self).stream()[1]) ==> r == Ok::<
                Option<Node<Expression>>,
                ParserIssue,
            >(Some(operand_tree(old(self).current()))) && final(self).stream() == old(self).stream().skip(1),
        decreases old(self).measure(), 16nat,
    {
        let mut left_side = match self.parse_casted_term()? {
            Some(t) => t,
            None => {
                return Ok(None);
            },
        };
        let mut current_token = self.current_token();
        while current_token.category == TokenCategory::Multiply || current_token.category == TokenCategory::Divide
            invariant
                self.valid(),
                self.measure() <= old(self).measure(),
                extends(old(self).taken(), self.taken()),
                current_token == self.current(),
                spec_starts_expression(old(self).current()),
                is_multiplicative(beyond(old(self).taken(), self.taken()), left_side),
                simple_operand(old(self).current()) && old(self).steps_cleanly() && ends_operand(old(self).stream()[1]) ==> left_side
                    == operand_tree(old(self).current()) && self.stream() == old(self).stream().skip(1),
            decreases self.measure(),
        {
            proof {
                self.lemma_stream_front();
                old(self).lemma_stream_front();
            }
            let ghost tb = self.taken();
            let ghost left = left_side;
            self.next_token()?;
            proof {
                assert(tb + token_seq(Some(current_token)) =~= tb.push(current_token));
            }
            let right_side = match self.parse_casted_term()? {
                Some(t) => t,
                None => {
                    return Err(self.create_parser_error(String::from_str("Couldn't create casted term while parsing multiplicative term.")));
                },
            };
            let expression_type = if current_token.category == TokenCategory::Divide { Expression::Division(Box::new(left_side), Box::new(right_side)) } else { Expression::Multiplication(Box::new(left_side), Box::new(right_side)) };
            left_side = Node { value: expression_type, position: current_token.position };
            proof {
                lemma_split_at(old(self).taken(), tb, current_token, self.taken());
                assert(cut(beyond(old(self).taken(), self.taken()), beyond(old(self).taken(), tb).len() as int));
            }
            current_token = self.current_token();
        }
        Ok(Some(left_side))
    }

    #[verifier::rlimit(40)]
    pub fn parse_relation_term(&mut self) -> (r: Result<Option<Node<Expression>>, ParserIssue>)
        requires
            old(self).valid(),
        ensures
            r matches Ok(None) ==> (*final(self) == *old(self) && !spec_starts_expression(old(self).current())) || old(self).gave_up_on(*final(self), TokenCategory::Identifier),
            r matches Ok(Some(n)) ==> is_relation(beyond(old(self).taken(), final(self).taken()), n),
            final(self).valid(),
            final(self).measure() <= old(self).measure(),
            extends(old(self).taken(), final(self).taken()),
            !spec_starts_expression(old(self).current()) ==> r == Ok::<Option<Node<Expression>>, ParserIssue>(None) && *final(self) == *old(self),
            simple_operand(old(self).current()) && old(self).steps_cleanly() && ends_expression(old(self).stream()[1]) ==> r == Ok::<
                Option<Node<Expression>>,
                ParserIssue,
            >(Some(operand_tree(old(self).current()))) && final(self).stream() == old(self).stream().skip(1),
            forall|n: int| #[trigger] sum_ahead(old(self).stream(), n) && !is_comparison(old(self).stream()[n]) ==> r == Ok::<
                Option<Node<Expression>>,
                ParserIssue,
            >(Some(sum_tree(old(self).stream().take(n)))) && final(self).stream() == old(self).stream().skip(n),
            forall|n: int, k: int| #[trigger] relation_ahead(old(self).stream(), n, k) ==> r == Ok::<Option<Node<Expression>>, ParserIssue>(
                Some(relation_tree(old(self).stream(), n, k)),
            ) && final(self).stream() == old(self).stream().skip(n + 1 + k),
        decreases old(self).measure(), 18nat,
    {
        proof {
            old(self).lemma_stream_front();
            if simple_operand(old(self).current()) && old(self).steps_cleanly() && ends_expression(old(self).stream()[1]) {
                assert(sum_ahead(self.stream(), 1));
                assert(sum_tree(self.stream().take(1)) == operand_tree(self.current()));
            }
        }
        let left_side = match self.parse_additive_term()? {
            Some(t) => t,
            None => {
                return Ok(None);
            },
        };
        let current_token = self.current_token();
        let ghost st = old(self).stream();
        proof {
            self.lemma_stream_front();
            assert forall|n: int| #[trigger] sum_ahead(st, n) implies self.current() == st[n] by {
                assert(st.skip(n)[0] == st[n]);
            }
        }
        let category = current_token.category;
        if !(category == TokenCategory::Equal || category == TokenCategory::NotEqual || category == TokenCategory::Greater
            || category == TokenCategory::GreaterOrEqual || category == TokenCategory::Less || category == TokenCategory::LessOrEqual) {
            return Ok(Some(left_side));
        }
        let ghost tb = self.taken();
        let ghost mid = *self;
        self.next_token()?;
        proof {
            assert(tb + token_seq(Some(current_token)) =~= tb.push(current_token));
            assert forall|n: int, k: int| #[trigger] relation_ahead(st, n, k) implies self.stream() == st.skip(n + 1) && sum_ahead(self.stream(), k) by {
                assert(st.skip(n)[0] == st[n]);
                assert(st.skip(n + 1)[0] == st[n + 1]);
                assert(mid.stream() == st.skip(n));
                mid.lemma_stream_front();
                assert(st.skip(n)[1] == st[n + 1]);
                assert(mid.steps_cleanly());
                assert(st.skip(n).skip(1) =~= st.skip(n + 1));
            }
        }
        let right_side = match self.parse_additive_term()? {
            Some(t) => t,
            None => {
                return Err(self.create_parser_error(String::from_str("Couldn't create additive term while parsing relation term.")));
            },
        };
        proof {
            lemma_split_at(old(self).taken(), tb, current_token, self.taken());
            assert(cut(beyond(old(self).taken(), self.taken()), beyond(old(self).taken(), tb).len() as int));
            assert forall|n: int, k: int| #[trigger] relation_ahead(st, n, k) implies self.stream() == st.skip(n + 1 + k) by {
                assert(st.skip(n + 1).skip(k) =~= st.skip(n + 1 + k));
            }
        }
        let position = left_side.position;
        let box_l = Box::new(left_side);
        let box_r = Box::new(right_side);
        let expr = match category {
            TokenCategory::Equal => Expression::Equal(box_l, box_r),
            TokenCategory::NotEqual => Expression::NotEqual(box_l, box_r),
            TokenCategory::Greater => Expression::Greater(box_l, box_r),
            TokenCategory::GreaterOrEqual => Expression::GreaterEqual(box_l, box_r),
            TokenCategory::Less => Expression::Less(box_l, box_r),
            _ => Expression::LessEqual(box_l, box_r),
        };
        Ok(Some(Node { value: expr, position }))
    }

    pub fn parse_casted_term(&mut self) -> (r: Result<Option<Node<Expression>>, ParserIssue>)
        requires
            old(self).valid(),
        ensures
            r matches Ok(None) ==> (*final(self) == *old(self) && !spec_starts_expression(old(self).current())) || old(self).gave_up_on(*final(self), TokenCategory::Identifier),
            r matches Ok(Some(n)) ==> is_casted(beyond(old(self).taken(), final(self).taken()), n),
            final(self).valid(),
            final(self).measure() <= old(self).measure(),
            extends(old(self).taken(), final(self).taken()),
            !spec_starts_expression(old(self).current()) ==> r == Ok::<Option<Node<Expression>>, ParserIssue>(None) && *final(self) == *old(self),
            simple_operand(old(self).current()) && old(self).steps_cleanly() && ends_operand(old(self).stream()[1]) ==> r == Ok::<
                Option<Node<Expression>>,
                ParserIssue,
            >(Some(operand_tree(old(self).current()))) && final(self).stream() == old(self).stream().skip(1),
        decreases old(self).measure(), 15nat,
    {
        let ghost t0 = self.taken();
        let unary_term = match self.parse_unary_term()? {
            Some(t) => t,
            None => {
                return Ok(None);
            },
        };
        let ghost t1 = self.taken();
        proof {
            self.lemma_stream_front();
            old(self).lemma_stream_front();
        }
        let position = unary_term.position;
        match self.consume_if_matches(TokenCategory::As)? {
            Some(as_token) => {
                let ghost type_token = self.current();
                let type_parsed = match self.parse_type()? {
                    Some(t) => t,
                    None => {
                        return Err(self.create_parser_error(String::from_str("Couldn't parse type.")));
                    },
                };
                proof {
                    lemma_beyond_push(t1, as_token);
                    lemma_beyond_join(t0, t1, t1.push(as_token));
                    lemma_beyond_push(t1.push(as_token), type_token);
                    lemma_beyond_join(t0, t1.push(as_token), self.taken());
                    let ts = beyond(t0, self.taken());
                    assert(ts =~= beyond(t0, t1) + seq![as_token, type_token]);
                    assert(ts.take(ts.len() - 2) =~= beyond(t0, t1));
                }
                Ok(Some(Node { value: Expression::Casting { value: Box::new(unary_term), to_type: type_parsed }, position }))
            },
            None => Ok(Some(unary_term)),
        }
    }

    pub fn parse_unary_term_factor(&mut self) -> (r: Result<Node<Expression>, ParserIssue>)
        requires
            old(self).valid(),
        ensures
            r matches Ok(n) ==> is_factor(beyond(old(self).taken(), final(self).taken()), n),
            spec_literal_of(old(self).current()) matches Some(l) ==> (r matches Ok(n) && n.value == Expression::Literal(l) && n.position
                == old(self).current().position),
            !spec_starts_factor(old(self).current()) ==> (r matches Err(e) && e.message@ == with_position(
                "Couldn't create factor while parsing unary term."@,
                old(self).current().position,
            ) && *final(self) == *old(self)),
            final(self).valid(),
            final(self).measure() <= old(self).measure(),
            extends(old(self).taken(), final(self).taken()),
        decreases old(self).measure(), 13nat,
    {
        match self.parse_factor()? {
            Some(t) => Ok(t),
            None => {
                return Err(self.create_parser_error(String::from_str("Couldn't create factor while parsing unary term.")))
            },
        }
    }

    pub fn parse_unary_term(&mut self) -> (r: Result<Option<Node<Expression>>, ParserIssue>)
        requires
            old(self).valid(),
        ensures
            r matches Ok(None) ==> (*final(self) == *old(self) && !spec_starts_expression(old(self).current())) || old(self).gave_up_on(*final(self), TokenCategory::Identifier),
            r matches Ok(Some(n)) ==> is_unary(beyond(old(self).taken(), final(self).taken()), n),
            final(self).valid(),
            final(self).measure() <= old(self).measure(),
            extends(old(self).taken(), final(self).taken()),
            !spec_starts_expression(old(self).current()) ==> r == Ok::<Option<Node<Expression>>, ParserIssue>(None) && *final(self) == *old(self),
            old(self).current().category == TokenCategory::Negate ==> (r matches Ok(Some(n)) ==> n.value is BooleanNegation && n.position == old(self).current().position),
            old(self).current().category == TokenCategory::Minus ==> (r matches Ok(Some(n)) ==> n.value is ArithmeticNegation && n.position == old(self).current().position),
            simple_operand(old(self).current()) && old(self).steps_cleanly() && ends_operand(old(self).stream()[1]) ==> r == Ok::<
                Option<Node<Expression>>,
                ParserIssue,
            >(Some(operand_tree(old(self).current()))) && final(self).stream() == old(self).stream().skip(1),
        decreases old(self).measure(), 14nat,
    {
        let ghost t0 = self.taken();
        if let Some(token) = self.consume_if_matches(TokenCategory::Negate)? {
            let ghost t1 = self.taken();
            let factor = self.parse_unary_term_factor()?;
            proof {
                lemma_beyond_push(t0, token);
                lemma_beyond_join(t0, t1, self.taken());
                assert(beyond(t0, self.taken()).skip(1) =~= beyond(t1, self.taken()));
            }
            return Ok(Some(Node { value: Expression::BooleanNegation(Box::new(factor)), position: token.position }));
        }
        if let Some(token) = self.consume_if_matches(TokenCategory::Minus)? {
            let ghost t1 = self.taken();
            let factor = self.parse_unary_term_factor()?;
            proof {
                lemma_beyond_push(t0, token);
                lemma_beyond_join(t0, t1, self.taken());
                assert(beyond(t0, self.taken()).skip(1) =~= beyond(t1, self.taken()));
            }
            return Ok(Some(Node { value: Expression::ArithmeticNegation(Box::new(factor)), position: token.position }));
        }
        self.parse_factor()
    }

    pub fn parse_factor(&mut self) -> (r: Result<Option<Node<Expression>>, ParserIssue>)
        requires
            old(self).valid(),
        ensures
            r matches Ok(None) ==> (*final(self) == *old(self) && !spec_starts_factor(old(self).current())) || old(self).gave_up_on(*final(self), TokenCategory::Identifier),
            r matches Ok(Some(n)) ==> is_factor(beyond(old(self).taken(), final(self).taken()), n),
            final(self).valid(),
            final(self).measure() <= old(self).measure(),
            extends(old(self).taken(), final(self).taken()),
            !spec_starts_factor(old(self).current()) ==> r == Ok::<Option<Node<Expression>>, ParserIssue>(None) && *final(self) == *old(self),
            spec_literal_of(old(self).current()) matches Some(l) ==> (r matches Ok(Some(n)) && n.value == Expression::Literal(l) && n.position == old(self).current().position),
            simple_operand(old(self).current()) && old(self).steps_cleanly() && ends_operand(old(self).stream()[1]) ==> r == Ok::<
                Option<Node<Expression>>,
                ParserIssue,
            >(Some(operand_tree(old(self).current()))) && final(self).stream() == old(self).stream().skip(1),
        decreases old(self).measure(), 12nat,
    {
        let ghost t0 = self.taken();
        if let Ok(Some(literal)) = self.parse_literal() {
            proof {
                lemma_beyond_push(t0, old(self).current());
            }
            return Ok(Some(Node { value: Expression::Literal(literal.value), position: literal.position }));
        }
        if let Some(open) = self.consume_if_matches(TokenCategory::ParenOpen)? {
            let ghost t1 = self.taken();
            let expression = match self.parse_expression()? {
                Some(t) => t,
                None => {
                    return Err(self.create_parser_error(String::from_str("Couldn't create expression while parsing nested expression.")));
                },
            };
            let ghost t2 = self.taken();
            let close = self.consume_must_be(TokenCategory::ParenClose)?;
            proof {
                lemma_beyond_push(t0, open);
                lemma_beyond_join(t0, t1, t2);
                lemma_beyond_push(t2, close);
                lemma_beyond_join(t0, t2, self.taken());
                let ts = beyond(t0, self.taken());
                assert(ts =~= seq![open] + beyond(t1, t2) + seq![close]);
                assert(ts.subrange(1, ts.len() - 1) =~= beyond(t1, t2));
            }
            return Ok(Some(expression));
        }
        self.parse_identifier_or_call()
    }

    pub fn parse_identifier_or_call(&mut self) -> (r: Result<Option<Node<Expression>>, ParserIssue>)
        requires
            old(self).valid(),
        ensures
            r matches Ok(None) ==> (*final(self) == *old(self) && old(self).current().category != TokenCategory::Identifier) || old(self).gave_up_on(*final(self), TokenCategory::Identifier),
            r matches Ok(Some(n)) ==> is_factor(beyond(old(self).taken(), final(self).taken()), n),
            final(self).valid(),
            final(self).measure() <= old(self).measure(),
            extends(old(self).taken(), final(self).taken()),
            old(self).current().category != TokenCategory::Identifier ==> r == Ok::<Option<Node<Expression>>, ParserIssue>(None) && *final(self) == *old(self),
            r matches Ok(Some(n)) ==> n.position == old(self).current().position && (n.value is Variable || n.value is FunctionCall),
            simple_operand(old(self).current()) && old(self).current().category == TokenCategory::Identifier && old(self).steps_cleanly()
                && ends_operand(old(self).stream()[1]) ==> r == Ok::<Option<Node<Expression>>, ParserIssue>(Some(operand_tree(old(self).current())))
                && final(self).stream() == old(self).stream().skip(1),
        decreases old(self).measure(), 11nat,
    {
        let ghost t0 = self.taken();
        let identifier = match self.parse_identifier()? {
            Some(t) => t,
            None => {
                return Ok(None);
            },
        };
        let ghost t1 = self.taken();
        proof {
            lemma_beyond_push(t0, old(self).current());
            self.lemma_stream_front();
            old(self).lemma_stream_front();
        }
        let position = identifier.position;
        let result = match self.consume_if_matches(TokenCategory::ParenOpen)? {
            Some(open) => {
                let ghost t2 = self.taken();
                let arguments = self.parse_arguments()?;
                let ghost t3 = self.taken();
                let close = self.consume_must_be(TokenCategory::ParenClose)?;
                proof {
                    lemma_beyond_push(t1, open);
                    lemma_beyond_join(t0, t1, t2);
                    lemma_beyond_join(t0, t2, t3);
                    lemma_beyond_push(t3, close);
                    lemma_beyond_join(t0, t3, self.taken());
                    let ts = beyond(t0, self.taken());
                    assert(ts =~= seq![old(self).current(), open] + beyond(t2, t3) + seq![close]);
                    assert(ts.subrange(2, ts.len() - 1) =~= beyond(t2, t3));
                }
                Expression::FunctionCall { identifier, arguments }
            },
            None => Expression::Variable(identifier.value),
        };
        Ok(Some(Node { value: result, position }))
    }

    pub fn void_type_or_error(&mut self) -> (r: Result<Node<Type>, ParserIssue>)
        requires
            old(self).valid(),
        ensures
            r is Ok ==> old(self).current().category == TokenCategory::Void && final(self).taken() == old(self).taken().push(old(self).current()),
            final(self).valid(),
            final(self).measure() <= old(self).measure(),
            extends(old(self).taken(), final(self).taken()),
            old(self).current().category == TokenCategory::Void ==> (r matches Ok(n) ==> n == (Node { value: Type::Void, position: old(self).current().position })),
            old(self).current().category == TokenCategory::Void && old(self).steps_cleanly() ==> (r is Ok && final(self).stream()
                == old(self).stream().skip(1)),
            old(self).current().category != TokenCategory::Void ==> (r matches Err(e) && e.message@ == with_position(
                "Bad return type: "@ + spec_category_text(old(self).current().category) + ". Expected one of: 'i64', 'f64', 'bool', 'str', 'void'."@,
                old(self).current().position)),
    {
        match self.consume_if_matches(TokenCategory::Void)? {
            Some(token) => Ok(Node { value: Type::Void, position: token.position }),
            None => {
                let mut message = String::from_str("Bad return type: ");
                message.append(self.current_token().category.text());
                message.append(". Expected one of: 'i64', 'f64', 'bool', 'str', 'void'.");
                Err(self.create_parser_error(message))
            },
        }
    }

    pub fn parse_function_declaration(&mut self) -> (r: Result<Option<Node<FunctionDeclaration>>, ParserIssue>)
        requires
            old(self).valid(),
        ensures
            r matches Ok(None) ==> (*final(self) == *old(self) && old(self).current().category != TokenCategory::Fn) || old(self).gave_up_on(*final(self), TokenCategory::Fn),
            r matches Ok(Some(f)) ==> is_function(beyond(old(self).taken(), final(self).taken()), f),
            final(self).valid(),
            final(self).measure() <= old(self).measure(),
            extends(old(self).taken(), final(self).taken()),
            old(self).current().category != TokenCategory::Fn ==> r == Ok::<Option<Node<FunctionDeclaration>>, ParserIssue>(None) && *final(self) == *old(self),
            r matches Ok(Some(n)) ==> n.position == old(self).current().position && final(self).measure() < old(self).measure(),
            old(self).current().category == TokenCategory::Fn && old(self).steps_cleanly() && old(self).stream()[1].category
                != TokenCategory::Identifier ==> (r matches Err(e) && e.message@ == with_position(
                "Couldn't create identifier while parsing function declaration."@,
                old(self).stream()[1].position,
            )),
            plain_function_ahead(old(self).stream()) ==> (r matches Ok(Some(f)) && declares_plainly(f, old(self).stream())
                && final(self).stream() == old(self).stream().skip(8)),
        decreases old(self).measure(), 36nat,
    {
        let ghost st = old(self).stream();
        let ghost plain = plain_function_ahead(st);
        let ghost t0 = self.taken();
        let fn_token = match self.consume_must_be(TokenCategory::Fn) {
            Ok(t) => t,
            Err(_) => {
                return Ok(None);
            },
        };
        let ghost id_token = self.current();
        proof {
            self.lemma_stream_front();
            old(self).lemma_stream_front();
            if plain {
                lemma_skip_next(st, 0);
                lemma_skip_next(st, 1);
            }
        }
        let identifier = match self.parse_identifier()? {
            Some(t) => t,
            None => {
                return Err(self.create_parser_error(String::from_str("Couldn't create identifier while parsing function declaration.")));
            },
        };
        proof {
            if plain {
                lemma_skip_next(st, 1);
                lemma_skip_next(st, 2);
                self.lemma_stream_front();
            }
        }
        let open = self.consume_must_be(TokenCategory::ParenOpen)?;
        proof {
            if plain {
                lemma_skip_next(st, 2);
                lemma_skip_next(st, 3);
                self.lemma_stream_front();
            }
        }
        let ghost t3 = self.taken();
        let parameters = self.parse_parameters()?;
        let ghost t4 = self.taken();
        let close = self.consume_must_be(TokenCategory::ParenClose)?;
        proof {
            if plain {
                lemma_skip_next(st, 3);
                lemma_skip_next(st, 4);
                self.lemma_stream_front();
            }
        }
        let colon = self.consume_must_be(TokenCategory::Colon)?;
        proof {
            if plain {
                lemma_skip_next(st, 4);
                lemma_skip_next(st, 5);
                self.lemma_stream_front();
            }
        }
        let ghost t6 = self.taken();
        let ghost rt_token = self.current();
        let return_type = match self.parse_type() {
            Ok(Some(t)) => t,
            _ => self.void_type_or_error()?,
        };
        proof {
            if plain {
                lemma_skip_next(st, 5);
                lemma_skip_next(st, 6);
                self.lemma_stream_front();
                lemma_skip_next(st, 7);
            }
        }
        let ghost t7 = self.taken();
        let block = match self.parse_statement_block()? {
            Some(t) => t,
            None => {
                return Err(self.create_parser_error(String::from_str("Couldn't create statement block while parsing function declaration.")));
            },
        };
        proof {
            lemma_function_tokens(t0, t3, t4, t6, t7, self.taken(), fn_token, id_token, open, close, colon, rt_token);
        }
        Ok(Some(Node { value: FunctionDeclaration { identifier, parameters, return_type, block }, position: fn_token.position }))
    }

    pub fn parse_parameters(&mut self) -> (r: Result<Vec<Node<Parameter>>, ParserIssue>)
        requires
            old(self).valid(),
        ensures
            r matches Ok(ps) ==> is_parameters(beyond(old(self).taken(), final(self).taken()), ps@),
            old(self).current().category != TokenCategory::Reference && spec_type_of(old(self).current().category) is None ==> (r matches Ok(ps)
                && ps@.len() == 0 && *final(self) == *old(self)),
            final(self).valid(),
            final(self).measure() <= old(self).measure(),
            extends(old(self).taken(), final(self).taken()),
    {
        let mut parameters: Vec<Node<Parameter>> = Vec::new();
        let parameter = match self.parse_parameter()? {
            Some(t) => t,
            None => {
                proof {
                    if self.taken() == old(self).taken() {
                        lemma_beyond_none(old(self).taken());
                    } else {
                        lemma_beyond_push(old(self).taken(), old(self).current());
                    }
                }
                return Ok(parameters);
            },
        };
        parameters.push(parameter);
        proof {
            assert(parameters@ =~= seq![parameter]);
        }
        loop
            invariant
                self.valid(),
                self.measure() <= old(self).measure(),
                extends(old(self).taken(), self.taken()),
                parameters@.len() >= 1,
                old(self).current().category == TokenCategory::Reference || spec_type_of(old(self).current().category) is Some,
                is_parameters(beyond(old(self).taken(), self.taken()), parameters@),
            decreases self.measure(),
        {
            let ghost tb = self.taken();
            let comma = match self.consume_if_matches(TokenCategory::Comma)? {
                Some(c) => c,
                None => {
                    break;
                },
            };
            let parameter = match self.parse_parameter()? {
                Some(t) => t,
                None => {
                    return Err(self.create_parser_error(String::from_str("Couldn't create parameter while parsing parameters.")));
                },
            };
            let ghost before = parameters@;
            parameters.push(parameter);
            proof {
                lemma_split_at(old(self).taken(), tb, comma, self.taken());
                assert(cut(beyond(old(self).taken(), self.taken()), beyond(old(self).taken(), tb).len() as int));
                assert(parameters@.drop_last() =~= before);
            }
        }
        Ok(parameters)
    }

    pub fn parse_parameter(&mut self) -> (r: Result<Option<Node<Parameter>>, ParserIssue>)
        requires
            old(self).valid(),
        ensures
            r matches Ok(None) ==> final(self).taken() == old(self).taken() || (old(self).current().category
                == TokenCategory::Reference && final(self).taken() == old(self).taken().push(old(self).current())),
            r matches Ok(Some(n)) ==> is_parameter(beyond(old(self).taken(), final(self).taken()), n),
            final(self).valid(),
            final(self).measure() <= old(self).measure(),
            extends(old(self).taken(), final(self).taken()),
            r matches Ok(Some(n)) ==> n.position == old(self).current().position,
            old(self).current().category != TokenCategory::Reference && spec_type_of(old(self).current().category) is None ==> r == Ok::<
                Option<Node<Parameter>>,
                ParserIssue,
            >(None) && *final(self) == *old(self),
    {
        let position = self.current_token().position;
        let passed_by = match self.consume_if_matches(TokenCategory::Reference)? {
            Some(_) => PassedBy::Reference,
            None => PassedBy::Value,
        };
        let parameter_type = match self.parse_type()? {
            Some(t) => t,
            None => {
                return Ok(None);
            },
        };
        let identifier = match self.parse_identifier()? {
            Some(t) => t,
            None => {
                return Err(self.create_parser_error(String::from_str("Couldn't create identifier while parsing parameter.")));
            },
        };
        Ok(Some(Node { value: Parameter { passed_by, parameter_type, identifier }, position }))
    }
}

/// The names of the built-in functions.
pub open spec fn spec_is_std_function_name(name: Seq<char>) -> bool {
    name == "print"@ || name == "input"@ || name == "mod"@
}

pub fn is_std_function_name(name: &str) -> (r: bool)
    ensures
        r == spec_is_std_function_name(name@),
{
    crate::text::str_equal(name, "print") || crate::text::str_equal(name, "input") || crate::text::str_equal(name, "mod")
}

/// The user functions of a program have distinct names, none of them the
/// name of a built-in function.
pub open spec fn functions_well_named(functions: Seq<Node<FunctionDeclaration>>) -> bool {
    &&& forall|i: int, j: int|
        0 <= i < j < functions.len() ==> (#[trigger] functions[i]).value.identifier.value@ != (#[trigger] functions[j]).value.identifier.value@
    &&& forall|i: int| 0 <= i < functions.len() ==> !spec_is_std_function_name((#[trigger] functions[i]).value.identifier.value@)
}

/// `Redeclaration of function '{name}'.\nAt: line: L, column: C.`
pub open spec fn redeclaration_text(name: Seq<char>, p: Position) -> Seq<char> {
    "Redeclaration of function '"@ + name + "'.\nAt: "@ + crate::position::position_text(p) + "."@
}

/// Tokens that can begin a statement inside a block.
pub open spec fn spec_starts_statement(c: TokenCategory) -> bool {
    c == TokenCategory::Identifier || c == TokenCategory::If || c == TokenCategory::For || c == TokenCategory::Switch
        || c == TokenCategory::Return || c == TokenCategory::Break || spec_type_of(c) is Some
}

/// Tokens that can begin a statement at the top level.
pub open spec fn spec_starts_program_statement(c: TokenCategory) -> bool {
    c == TokenCategory::Identifier || c == TokenCategory::If || c == TokenCategory::For || c == TokenCategory::Switch
        || spec_type_of(c) is Some
}

/// Tokens that can begin a factor: a literal, `(` or an identifier.
pub open spec fn spec_starts_factor(t: Token) -> bool {
    spec_literal_of(t) is Some || t.category == TokenCategory::ParenOpen || t.category == TokenCategory::Identifier
}

/// A literal, or a name that carries its text: an operand standing alone.
pub open spec fn simple_operand(t: Token) -> bool {
    spec_literal_of(t) is Some || (t.category == TokenCategory::Identifier && t.value is String)
}

/// The expression a simple operand stands for.
pub open spec fn operand_tree(t: Token) -> Node<Expression> {
    match spec_literal_of(t) {
        Some(l) => Node { value: Expression::Literal(l), position: t.position },
        None => Node { value: Expression::Variable(t.value->String_0), position: t.position },
    }
}

/// A token after which an operand stands alone: no call, cast, product or
/// quotient goes on, and it is no comment.
pub open spec fn ends_operand(t: Token) -> bool {
    t.category != TokenCategory::ParenOpen && t.category != TokenCategory::As && t.category != TokenCategory::Multiply
        && t.category != TokenCategory::Divide && t.category != TokenCategory::Comment
}

/// A token after which an operand is a whole expression: none of the
/// operators that could go on follows.
pub open spec fn ends_expression(t: Token) -> bool {
    &&& ends_operand(t)
    &&& !is_sign(t)
    &&& t.category != TokenCategory::Equal && t.category != TokenCategory::NotEqual
    &&& t.category != TokenCategory::Greater && t.category != TokenCategory::GreaterOrEqual
    &&& t.category != TokenCategory::Less && t.category != TokenCategory::LessOrEqual
    &&& t.category != TokenCategory::And
    &&& t.category != TokenCategory::Or
}

/// The tokens after the current one up to index `n` of the stream are
/// known and none is a comment.
pub open spec fn clean_ahead(ts: Seq<Token>, n: int) -> bool {
    &&& n < ts.len()
    &&& forall|i: int| 1 <= i <= n ==> (#[trigger] ts[i]).category != TokenCategory::Comment
}

/// `ts` begins with `for ( ; e ; ) { }`, `e` a simple operand, and one
/// more token; none of these tokens is a comment.
pub open spec fn plain_for_ahead(ts: Seq<Token>) -> bool {
    &&& clean_ahead(ts, 8)
    &&& ts[0].category == TokenCategory::For
    &&& ts[1].category == TokenCategory::ParenOpen
    &&& ts[2].category == TokenCategory::Semicolon
    &&& simple_operand(ts[3])
    &&& ts[4].category == TokenCategory::Semicolon
    &&& ts[5].category == TokenCategory::ParenClose
    &&& ts[6].category == TokenCategory::BraceOpen
    &&& ts[7].category == TokenCategory::BraceClose
}

/// `ts` begins with `for (` and a token that neither names a type nor is
/// `;`; none of these tokens is a comment.
pub open spec fn for_without_declaration_ahead(ts: Seq<Token>) -> bool {
    &&& clean_ahead(ts, 2)
    &&& ts[0].category == TokenCategory::For
    &&& ts[1].category == TokenCategory::ParenOpen
    &&& spec_type_of(ts[2].category) is None
    &&& ts[2].category != TokenCategory::Semicolon
}

/// `ts` begins with `for ( ;` and a token that cannot begin an expression;
/// none of these tokens is a comment.
pub open spec fn for_without_condition_ahead(ts: Seq<Token>) -> bool {
    &&& clean_ahead(ts, 3)
    &&& ts[0].category == TokenCategory::For
    &&& ts[1].category == TokenCategory::ParenOpen
    &&& ts[2].category == TokenCategory::Semicolon
    &&& !spec_starts_expression(ts[3])
}

/// `ts` begins with `for ( ; e ;`, `e` a simple operand, then a token that
/// is neither a name nor `)`; none of these tokens is a comment.
pub open spec fn for_without_close_ahead(ts: Seq<Token>) -> bool {
    &&& clean_ahead(ts, 5)
    &&& ts[0].category == TokenCategory::For
    &&& ts[1].category == TokenCategory::ParenOpen
    &&& ts[2].category == TokenCategory::Semicolon
    &&& simple_operand(ts[3])
    &&& ts[4].category == TokenCategory::Semicolon
    &&& ts[5].category != TokenCategory::Identifier
    &&& ts[5].category != TokenCategory::ParenClose
}

/// `ts` begins with `t x = e`, `t` a type, `x` a name and `e` a simple
/// operand, then a token that ends the expression; none of these tokens is
/// a comment.
pub open spec fn initialized_declaration_ahead(ts: Seq<Token>) -> bool {
    &&& clean_ahead(ts, 4)
    &&& spec_type_of(ts[0].category) is Some
    &&& ts[1].category == TokenCategory::Identifier
    &&& ts[1].value is String
    &&& ts[2].category == TokenCategory::Assign
    &&& simple_operand(ts[3])
    &&& ends_expression(ts[4])
}

/// The declaration `t x = e` at the start of `ts` stands for.
pub open spec fn initialized_declaration_tree(ts: Seq<Token>) -> Node<Statement> {
    Node {
        value: Statement::Declaration {
            var_type: Node { value: spec_type_of(ts[0].category)->0, position: ts[0].position },
            identifier: Node { value: ts[1].value->String_0, position: ts[1].position },
            value: Some(operand_tree(ts[3])),
        },
        position: ts[0].position,
    }
}

/// `ts` begins with `for ( t x = e ; c ; y = s ) { }` and one more token:
/// `t x = e` declares with a simple operand, `c` compares a sum of simple
/// operands of `n` tokens with one of `k` tokens, and `s` is a sum of
/// simple operands of `m` tokens; none of these tokens is a comment.
pub open spec fn counting_for_ahead(ts: Seq<Token>, n: int, k: int, m: int) -> bool {
    &&& clean_ahead(ts, 14 + n + k + m)
    &&& ts[0].category == TokenCategory::For
    &&& ts[1].category == TokenCategory::ParenOpen
    &&& initialized_declaration_ahead(ts.skip(2))
    &&& ts[6].category == TokenCategory::Semicolon
    &&& relation_ahead(ts.skip(7), n, k)
    &&& ts[8 + n + k].category == TokenCategory::Semicolon
    &&& ts[9 + n + k].category == TokenCategory::Identifier
    &&& ts[9 + n + k].value is String
    &&& ts[10 + n + k].category == TokenCategory::Assign
    &&& sum_ahead(ts.skip(11 + n + k), m)
    &&& ts[11 + n + k + m].category == TokenCategory::ParenClose
    &&& ts[12 + n + k + m].category == TokenCategory::BraceOpen
    &&& ts[13 + n + k + m].category == TokenCategory::BraceClose
}

/// The loop `counting_for_ahead(ts, n, k, m)` finds, but for its block,
/// which is empty.
pub open spec fn counting_for_parts(ts: Seq<Token>, n: int, k: int, m: int, f: Statement) -> bool {
    f matches Statement::ForLoop { declaration: Some(d), condition, assignment: Some(x), block } && *d == initialized_declaration_tree(
        ts.skip(2),
    ) && condition == relation_tree(ts.skip(7), n, k) && *x == (Node {
        value: Statement::Assignment {
            identifier: Node { value: ts[9 + n + k].value->String_0, position: ts[9 + n + k].position },
            value: sum_tree(ts.skip(11 + n + k).take(m)),
        },
        position: ts[9 + n + k].position,
    }) && block.value.0@.len() == 0
}

/// A sum of simple operands ends at one place only.
pub proof fn lemma_sum_unique(ts: Seq<Token>, a: int, b: int)
    requires
        sum_ahead(ts, a),
        sum_ahead(ts, b),
    ensures
        a == b,
{
    if a < b {
        assert(is_sign(ts[a]));
    } else if b < a {
        assert(is_sign(ts[b]));
    }
}

/// The parts of a counting loop are found in one way only.
pub proof fn lemma_counting_for_unique(ts: Seq<Token>, n: int, k: int, m: int, n2: int, k2: int, m2: int)
    requires
        counting_for_ahead(ts, n, k, m),
        counting_for_ahead(ts, n2, k2, m2),
    ensures
        n == n2 && k == k2 && m == m2,
{
    lemma_sum_unique(ts.skip(7), n, n2);
    lemma_sum_unique(ts.skip(7).skip(n + 1), k, k2);
    lemma_sum_unique(ts.skip(11 + n + k), m, m2);
}

/// Moving one token further along `ts.skip(k)`.
pub proof fn lemma_skip_next(ts: Seq<Token>, k: int)
    requires
        0 <= k < ts.len(),
    ensures
        ts.skip(k).skip(1) == ts.skip(k + 1),
        ts.skip(k)[0] == ts[k],
        k + 1 < ts.len() ==> ts.skip(k)[1] == ts[k + 1],
        k + 2 < ts.len() ==> ts.skip(k)[2] == ts[k + 2],
{
    assert(ts.skip(k).skip(1) =~= ts.skip(k + 1));
}

/// `ts` begins with `x = e ;`, `x` a name and `e` a simple operand, and one
/// more token; none of these tokens is a comment.
pub open spec fn plain_assignment_ahead(ts: Seq<Token>) -> bool {
    &&& clean_ahead(ts, 4)
    &&& ts[0].category == TokenCategory::Identifier
    &&& ts[0].value is String
    &&& ts[1].category == TokenCategory::Assign
    &&& simple_operand(ts[2])
    &&& ts[3].category == TokenCategory::Semicolon
}

/// `n` is the assignment that the tokens `x = e ;` at the start of `ts`
/// stand for, `e` a simple operand.
pub open spec fn assigns_plainly(n: Node<Statement>, ts: Seq<Token>) -> bool {
    n.value matches Statement::Assignment { identifier, value } && TokenValue::String(identifier.value) == ts[0].value && value
        == operand_tree(ts[2])
}

/// `ts` begins with `fn f ( ) : void { }` and one more token; none of these
/// tokens is a comment.
pub open spec fn plain_function_ahead(ts: Seq<Token>) -> bool {
    &&& clean_ahead(ts, 8)
    &&& ts[0].category == TokenCategory::Fn
    &&& ts[1].category == TokenCategory::Identifier
    &&& ts[1].value is String
    &&& ts[2].category == TokenCategory::ParenOpen
    &&& ts[3].category == TokenCategory::ParenClose
    &&& ts[4].category == TokenCategory::Colon
    &&& ts[5].category == TokenCategory::Void
    &&& ts[6].category == TokenCategory::BraceOpen
    &&& ts[7].category == TokenCategory::BraceClose
}

/// `f` is the function `fn f ( ) : void { }` at the start of `ts` stands for.
pub open spec fn declares_plainly(f: Node<FunctionDeclaration>, ts: Seq<Token>) -> bool {
    &&& TokenValue::String(f.value.identifier.value) == ts[1].value
    &&& f.value.identifier.position == ts[1].position
    &&& f.value.parameters@.len() == 0
    &&& f.value.return_type.value == Type::Void
    &&& f.value.block.value.0@.len() == 0
    &&& f.position == ts[0].position
}

/// `+` or `-`.
pub open spec fn is_sign(t: Token) -> bool {
    t.category == TokenCategory::Plus || t.category == TokenCategory::Minus
}

/// `ts` begins with a sum of simple operands that ends before index `n`:
/// operands at even places, `+` or `-` between them, then a token that ends
/// the sum; none of these tokens is a comment.
pub open spec fn sum_ahead(ts: Seq<Token>, n: int) -> bool {
    &&& 1 <= n < ts.len()
    &&& n % 2 == 1
    &&& forall|i: int| 0 <= i < n && i % 2 == 0 ==> simple_operand(#[trigger] ts[i])
    &&& forall|i: int| 0 <= i < n && i % 2 == 1 ==> is_sign(#[trigger] ts[i])
    &&& ends_operand(ts[n])
    &&& !is_sign(ts[n])
}

/// The tree of a sum of simple operands, grouped from the left: the last
/// sign applies to everything before it and the last operand.
pub open spec fn sum_tree(ts: Seq<Token>) -> Node<Expression>
    decreases ts.len(),
{
    if ts.len() < 3 {
        operand_tree(ts[0])
    } else {
        let op = ts[ts.len() - 2];
        let left = Box::new(sum_tree(ts.take(ts.len() - 2)));
        let right = Box::new(operand_tree(ts[ts.len() - 1]));
        Node {
            value: if op.category == TokenCategory::Minus { Expression::Subtraction(left, right) } else { Expression::Addition(left, right) },
            position: op.position,
        }
    }
}

/// `==`, `!=`, `>`, `>=`, `<` or `<=`.
pub open spec fn is_comparison(t: Token) -> bool {
    ||| t.category == TokenCategory::Equal
    ||| t.category == TokenCategory::NotEqual
    ||| t.category == TokenCategory::Greater
    ||| t.category == TokenCategory::GreaterOrEqual
    ||| t.category == TokenCategory::Less
    ||| t.category == TokenCategory::LessOrEqual
}

/// `ts` begins with a sum of simple operands ending before index `n`, a
/// comparison at `n`, and a second such sum of `k` tokens after it.
pub open spec fn relation_ahead(ts: Seq<Token>, n: int, k: int) -> bool {
    &&& sum_ahead(ts, n)
    &&& is_comparison(ts[n])
    &&& sum_ahead(ts.skip(n + 1), k)
}

/// The tree of the comparison that `relation_ahead(ts, n, k)` finds.
pub open spec fn relation_tree(ts: Seq<Token>, n: int, k: int) -> Node<Expression> {
    let l = Box::new(sum_tree(ts.take(n)));
    let r = Box::new(sum_tree(ts.skip(n + 1).take(k)));
    Node {
        value: if ts[n].category == TokenCategory::Equal {
            Expression::Equal(l, r)
        } else if ts[n].category == TokenCategory::NotEqual {
            Expression::NotEqual(l, r)
        } else if ts[n].category == TokenCategory::Greater {
            Expression::Greater(l, r)
        } else if ts[n].category == TokenCategory::GreaterOrEqual {
            Expression::GreaterEqual(l, r)
        } else if ts[n].category == TokenCategory::Less {
            Expression::Less(l, r)
        } else {
            Expression::LessEqual(l, r)
        },
        position: sum_tree(ts.take(n)).position,
    }
}

/// Tokens that can begin an expression: a factor, `!` or `-`.
pub open spec fn spec_starts_expression(t: Token) -> bool {
    spec_starts_factor(t) || t.category == TokenCategory::Negate || t.category == TokenCategory::Minus
}


impl<L: ILexer> Parser<L> {
    /// Parses a whole program: statements and function declarations up to
    /// the end of the input. A function may not be declared twice, nor take
    /// the name of a built-in function.
    #[verifier::spinoff_prover]
    pub fn parse(&mut self) -> (r: Result<Program, ParserIssue>)
        requires
            old(self).lexer_state().valid(),
        ensures
            r matches Ok(p) ==> functions_well_named(p.functions@),
            r matches Ok(p) ==> is_program(
                beyond(old(self).taken(), final(self).taken()),
                token_seq(old(self).lexer_state().token()).len() as int + 1,
                p,
            ),
            old(self).lexer_state().token() is Some && clean_ahead(old(self).stream(), 3) && old(self).stream()[2].category
                == TokenCategory::ETX ==> (r matches Ok(p) && p.statements@.len() == 0 && p.functions@.len() == 0),
            old(self).lexer_state().token() is Some && clean_ahead(old(self).stream(), 7) && plain_assignment_ahead(old(self).stream().skip(2))
                && old(self).stream()[6].category == TokenCategory::ETX ==> (r matches Ok(p) && p.statements@.len() == 1
                && p.functions@.len() == 0 && assigns_plainly(p.statements@[0], old(self).stream().skip(2))),
            ({
                let st = old(self).stream();
                old(self).lexer_state().token() is Some && clean_ahead(st, 18) && plain_function_ahead(st.skip(2)) && plain_function_ahead(st.skip(10))
            && st[3].value == st[11].value && !spec_is_std_function_name(st[3].value->String_0@)
            }) ==> (r matches Err(e) && e.message@ == redeclaration_text(
                old(self).stream()[3].value->String_0@,
                old(self).stream()[10].position,
            )),
            ({
                let st = old(self).stream();
                old(self).lexer_state().token() is Some && clean_ahead(st, 10) && plain_function_ahead(st.skip(2)) && spec_is_std_function_name(
                    st[3].value->String_0@,
                )
            }) ==> (r matches Err(e) && e.message@ == redeclaration_text(
                old(self).stream()[3].value->String_0@,
                old(self).stream()[2].position,
            )),
    {
        let ghost st = old(self).stream();
        let ghost empty = old(self).lexer_state().token() is Some && clean_ahead(st, 3) && st[2].category == TokenCategory::ETX;
        let ghost single = old(self).lexer_state().token() is Some && clean_ahead(st, 7) && plain_assignment_ahead(st.skip(2))
            && st[6].category == TokenCategory::ETX;
        let ghost dup = old(self).lexer_state().token() is Some && clean_ahead(st, 18) && plain_function_ahead(st.skip(2)) && plain_function_ahead(st.skip(10))
            && st[3].value == st[11].value && !spec_is_std_function_name(st[3].value->String_0@);
        let ghost builtin = (old(self).lexer_state().token() is Some && clean_ahead(st, 10) && plain_function_ahead(st.skip(2)) && spec_is_std_function_name(st[3].value->String_0@));
        proof {
            old(self).lemma_stream_front();
        }
        let ghost t0 = self.taken();
        self.next_token()?;
        proof {
            if empty || single || dup || builtin {
                assert(st.skip(1)[1] == st[2]);
                self.lemma_stream_front();
            }
        }
        let ghost t1 = self.taken();
        let ghost first = self.lexer.token()->0;
        self.next_token()?;
        proof {
            if empty || single || dup || builtin {
                assert(self.stream() =~= st.skip(2));
                self.lemma_stream_front();
                assert(st.skip(2)[0] == st[2]);
                assert(st.skip(2)[1] == st[3]);
            }
        }
        let ghost start = self.taken();
        let mut statements: Vec<Node<Statement>> = Vec::new();
        let mut functions: Vec<Node<FunctionDeclaration>> = Vec::new();
        proof {
            lemma_beyond_none(start);
        }
        loop
            invariant_except_break
                is_items(beyond(start, self.taken()), statements@, functions@) || stuck_on(
                    self.lexer_state().token(),
                    TokenCategory::BraceOpen,
                ),
            invariant
                st == old(self).stream(),
                empty == (old(self).lexer_state().token() is Some && clean_ahead(st, 3) && st[2].category == TokenCategory::ETX),
                empty ==> self.stream() == st.skip(2) && statements@.len() == 0 && functions@.len() == 0,
                single == (old(self).lexer_state().token() is Some && clean_ahead(st, 7) && plain_assignment_ahead(st.skip(2))
                    && st[6].category == TokenCategory::ETX),
                single ==> functions@.len() == 0 && ((statements@.len() == 0 && self.stream() == st.skip(2)) || (statements@.len() == 1
                    && assigns_plainly(statements@[0], st.skip(2)) && self.stream() == st.skip(6))),
                dup == (old(self).lexer_state().token() is Some && clean_ahead(st, 18) && plain_function_ahead(st.skip(2)) && plain_function_ahead(st.skip(10))
            && st[3].value == st[11].value && !spec_is_std_function_name(st[3].value->String_0@)),
                builtin == (old(self).lexer_state().token() is Some && clean_ahead(st, 10) && plain_function_ahead(st.skip(2)) && spec_is_std_function_name(st[3].value->String_0@)),
                builtin ==> statements@.len() == 0 && functions@.len() == 0 && self.stream() == st.skip(2),
                dup ==> statements@.len() == 0 && ((functions@.len() == 0 && self.stream() == st.skip(2)) || (functions@.len() == 1
                    && declares_plainly(functions@[0], st.skip(2)) && self.stream() == st.skip(10))),
                self.valid(),
                functions_well_named(functions@),
                t1 == t0 + token_seq(old(self).lexer_state().token()),
                start == t1.push(first),
                extends(start, self.taken()),
            ensures
                empty ==> self.stream() == st.skip(2) && statements@.len() == 0 && functions@.len() == 0,
                single ==> functions@.len() == 0 && statements@.len() == 1 && assigns_plainly(statements@[0], st.skip(2)) && self.stream()
                    == st.skip(6),
                !dup,
                !builtin,
                self.valid(),
                functions_well_named(functions@),
                extends(start, self.taken()),
                self.current().category == TokenCategory::ETX ==> is_items(beyond(start, self.taken()), statements@, functions@),
            decreases self.measure(),
        {
            let ghost tb = self.taken();
            let ghost at_start = *self;
            proof {
                self.lemma_stream_front();
                if empty {
                    assert(st.skip(2)[0] == st[2]);
                }
                if single {
                    assert(st.skip(2)[0] == st[2]);
                    assert(st.skip(6)[0] == st[6]);
                    assert(st.skip(2).skip(4) =~= st.skip(6));
                    if statements@.len() == 0 {
                        assert(plain_assignment_ahead(self.stream()));
                    }
                }
                if dup {
                    assert(st.skip(2)[0] == st[2]);
                    assert(st.skip(10)[0] == st[10]);
                    assert(st.skip(2).skip(8) =~= st.skip(10));
                }
                if builtin {
                    assert(st.skip(2)[0] == st[2]);
                }
            }
            let program_statement = self.parse_program_statement()?;
            if let Some(statement) = program_statement {
                let ghost before = statements@;
                statements.push(statement);
                proof {
                    assert(statements@.drop_last() =~= before);
                    if is_statement(beyond(tb, self.taken()), statement) {
                        lemma_split_between(start, tb, self.taken());
                    }
                }
            } else {
                let ghost mid = *self;
                let function = self.parse_function_declaration()?;
                match function {
                    Some(function_declaration) => {
                        proof {
                            assert(mid.current().category == TokenCategory::Fn);
                            if empty {
                                assert(st.skip(2)[0] == st[2]);
                            }
                            if single {
                                assert(st.skip(2)[0] == st[2]);
                                assert(st.skip(6)[0] == st[6]);
                            }
                            if dup {
                                assert(st.skip(2)[1] == st[3]);
                                assert(st.skip(10)[1] == st[11]);
                            }
                            if builtin {
                                assert(st.skip(2)[1] == st[3]);
                                assert(st.skip(2)[0] == st[2]);
                            }
                        }
                        let ghost after = self.taken();
                        let name = &function_declaration.value.identifier.value;
                        let mut i: usize = 0;
                        while i < functions.len()
                            invariant
                                !empty,
                                !single,
                                dup == (old(self).lexer_state().token() is Some && clean_ahead(st, 18) && plain_function_ahead(st.skip(2)) && plain_function_ahead(st.skip(10))
            && st[3].value == st[11].value && !spec_is_std_function_name(st[3].value->String_0@)),
                                dup ==> (functions@.len() == 0 && declares_plainly(function_declaration, st.skip(2))) || (functions@.len() == 1
                                    && declares_plainly(functions@[0], st.skip(2)) && declares_plainly(function_declaration, st.skip(10)) && i == 0),
                                dup ==> st.skip(2)[1] == st[3] && st.skip(10)[1] == st[11] && st.skip(10)[0] == st[10],
                                builtin == (old(self).lexer_state().token() is Some && clean_ahead(st, 10) && plain_function_ahead(st.skip(2)) && spec_is_std_function_name(st[3].value->String_0@)),
                                builtin ==> functions@.len() == 0 && declares_plainly(function_declaration, st.skip(2)) && st.skip(2)[1] == st[3]
                                    && st.skip(2)[0] == st[2],
                                name@ == function_declaration.value.identifier.value@,
                                single == (old(self).lexer_state().token() is Some && clean_ahead(st, 7) && plain_assignment_ahead(st.skip(2))
                                    && st[6].category == TokenCategory::ETX),
                                st == old(self).stream(),
                                empty == (old(self).lexer_state().token() is Some && clean_ahead(st, 3) && st[2].category == TokenCategory::ETX),
                                i <= functions.len(),
                                forall|j: int| 0 <= j < i ==> (#[trigger] functions@[j]).value.identifier.value@ != name@,
                            decreases functions.len() - i,
                        {
                            if functions[i].value.identifier.value == *name {
                                return Err(self.redeclaration_error(&function_declaration));
                            }
                            i = i + 1;
                        }
                        if is_std_function_name(name.as_str()) {
                            return Err(self.redeclaration_error(&function_declaration));
                        }
                        let ghost before = functions@;
                        functions.push(function_declaration);
                        proof {
                            assert(functions@.drop_last() =~= before);
                            lemma_split_between(start, tb, after);
                        }
                    },
                    None => {
                        break;
                    },
                }
            }
        }
        let ghost tz = self.taken();
        proof {
            self.lemma_stream_front();
            if empty {
                assert(st.skip(2)[0] == st[2]);
                assert(st.skip(2)[1] == st[3]);
            }
            if single {
                assert(st.skip(6)[0] == st[6]);
                assert(st.skip(6)[1] == st[7]);
            }
        }
        let end = self.consume_must_be(TokenCategory::ETX)?;
        proof {
            lemma_beyond_join(t0, t1, start);
            lemma_beyond_join(t0, start, tz);
            lemma_beyond_push(tz, end);
            lemma_beyond_join(t0, tz, self.taken());
            let ts = beyond(t0, self.taken());
            let k = token_seq(old(self).lexer_state().token()).len() + 1;
            assert(beyond(t0, start) =~= token_seq(old(self).lexer_state().token()).push(first));
            assert(ts =~= beyond(t0, start) + beyond(start, tz) + seq![end]);
            assert(ts.subrange(k as int, ts.len() - 1) =~= beyond(start, tz));
        }
        Ok(Program { statements, functions })
    }

    fn redeclaration_error(&self, function_declaration: &Node<FunctionDeclaration>) -> (e: ParserIssue)
        ensures
            e.message@ == redeclaration_text(function_declaration.value.identifier.value@, function_declaration.position),
            e.level == IssueLevel::ERROR,
    {
        let mut message = String::from_str("Redeclaration of function '");
        message.append(function_declaration.value.identifier.value.as_str());
        message.append("'.\nAt: ");
        let place = function_declaration.position.debug_text();
        message.append(place.as_str());
        message.append(".");
        ParserIssue { level: IssueLevel::ERROR, message }
    }
}

} // verus!
