//! The grammar of the language over tokens: which trees a run of tokens
//! stands for. The parser's contracts say that the tokens each parsing
//! function takes form the tree it returns.
use vstd::prelude::*;

use crate::ast::{
    Argument, Block, Expression, FunctionDeclaration, Literal, Node, Parameter, PassedBy, Program, Statement, SwitchCase, SwitchExpression,
    Type,
};
use crate::parser::{spec_literal_of, spec_type_of};
use crate::tokens::{Token, TokenCategory, TokenValue};

verus! {

/// `i` is the index of a token of `ts`: a place where `ts` is split around
/// one token. The quantifiers over such places are triggered by it.
pub open spec fn cut(ts: Seq<Token>, i: int) -> bool {
    0 <= i < ts.len()
}

/// An identifier token with the name `name`.
pub open spec fn is_identifier(t: Token, name: Node<String>) -> bool {
    &&& t.category == TokenCategory::Identifier
    &&& t.value == TokenValue::String(name.value)
    &&& name.position == t.position
}

/// factor = literal | "(" expression ")" | identifier [ "(" arguments ")" ]
pub open spec fn is_factor(ts: Seq<Token>, n: Node<Expression>) -> bool
    decreases ts.len(), 0int,
{
    ||| ts.len() == 1 && (spec_literal_of(ts[0]) matches Some(l) && n == Node { value: Expression::Literal(l), position: ts[0].position })
    ||| ts.len() == 1 && n.position == ts[0].position && (n.value matches Expression::Variable(name) && is_identifier(
        ts[0],
        Node { value: name, position: ts[0].position },
    ))
    ||| ts.len() >= 2 && ts[0].category == TokenCategory::ParenOpen && ts.last().category == TokenCategory::ParenClose
        && is_expression(ts.subrange(1, ts.len() - 1), n)
    ||| ts.len() >= 3 && ts[1].category == TokenCategory::ParenOpen && ts.last().category == TokenCategory::ParenClose
        && n.position == ts[0].position && (n.value matches Expression::FunctionCall { identifier, arguments } && is_identifier(
        ts[0],
        identifier,
    ) && is_arguments(ts.subrange(2, ts.len() - 1), arguments@))
}

/// unary_term = [ "-" | "!" ], factor
pub open spec fn is_unary(ts: Seq<Token>, n: Node<Expression>) -> bool
    decreases ts.len(), 1int,
{
    ||| is_factor(ts, n)
    ||| ts.len() >= 1 && ts[0].category == TokenCategory::Negate && n.position == ts[0].position
        && (n.value matches Expression::BooleanNegation(f) && is_factor(ts.skip(1), *f))
    ||| ts.len() >= 1 && ts[0].category == TokenCategory::Minus && n.position == ts[0].position
        && (n.value matches Expression::ArithmeticNegation(f) && is_factor(ts.skip(1), *f))
}

/// casted_term = unary_term, [ "as", type ]
pub open spec fn is_casted(ts: Seq<Token>, n: Node<Expression>) -> bool
    decreases ts.len(), 2int,
{
    ||| is_unary(ts, n)
    ||| ts.len() >= 3 && ts[ts.len() - 2].category == TokenCategory::As && (n.value matches Expression::Casting { value, to_type }
        && spec_type_of(ts.last().category) == Some(to_type.value) && to_type.position == ts.last().position
        && n.position == value.position && is_unary(ts.take(ts.len() - 2), *value))
}

/// multiplicative_term = casted_term, { ("*" | "/"), casted_term }
pub open spec fn is_multiplicative(ts: Seq<Token>, n: Node<Expression>) -> bool
    decreases ts.len(), 3int,
{
    ||| is_casted(ts, n)
    ||| n.value matches Expression::Multiplication(l, r) && exists|i: int| #[trigger] cut(ts, i)
        && ts[i].category == TokenCategory::Multiply && n.position == ts[i].position && is_multiplicative(ts.take(i), *l)
        && is_casted(ts.skip(i + 1), *r)
    ||| n.value matches Expression::Division(l, r) && exists|i: int| #[trigger] cut(ts, i)
        && ts[i].category == TokenCategory::Divide && n.position == ts[i].position && is_multiplicative(ts.take(i), *l)
        && is_casted(ts.skip(i + 1), *r)
}

/// additive_term = multiplicative_term, { ("+" | "-"), multiplicative_term }
pub open spec fn is_additive(ts: Seq<Token>, n: Node<Expression>) -> bool
    decreases ts.len(), 4int,
{
    ||| is_multiplicative(ts, n)
    ||| n.value matches Expression::Addition(l, r) && exists|i: int| #[trigger] cut(ts, i)
        && ts[i].category == TokenCategory::Plus && n.position == ts[i].position && is_additive(ts.take(i), *l)
        && is_multiplicative(ts.skip(i + 1), *r)
    ||| n.value matches Expression::Subtraction(l, r) && exists|i: int| #[trigger] cut(ts, i)
        && ts[i].category == TokenCategory::Minus && n.position == ts[i].position && is_additive(ts.take(i), *l)
        && is_multiplicative(ts.skip(i + 1), *r)
}

/// The operator token, left and right operand of a comparison.
pub open spec fn comparison_of(e: Expression) -> Option<(TokenCategory, Node<Expression>, Node<Expression>)> {
    match e {
        Expression::Equal(l, r) => Some((TokenCategory::Equal, *l, *r)),
        Expression::NotEqual(l, r) => Some((TokenCategory::NotEqual, *l, *r)),
        Expression::Greater(l, r) => Some((TokenCategory::Greater, *l, *r)),
        Expression::GreaterEqual(l, r) => Some((TokenCategory::GreaterOrEqual, *l, *r)),
        Expression::Less(l, r) => Some((TokenCategory::Less, *l, *r)),
        Expression::LessEqual(l, r) => Some((TokenCategory::LessOrEqual, *l, *r)),
        _ => None,
    }
}

/// relation_term = additive_term, [ relation_operator, additive_term ];
/// the comparison stands where its left operand does.
pub open spec fn is_relation(ts: Seq<Token>, n: Node<Expression>) -> bool
    decreases ts.len(), 5int,
{
    ||| is_additive(ts, n)
    ||| comparison_of(n.value) matches Some((c, l, r)) && exists|i: int| #[trigger] cut(ts, i) && ts[i].category == c
        && n.position == l.position && is_additive(ts.take(i), l) && is_additive(ts.skip(i + 1), r)
}

/// concatenation_term = relation_term, { "&&", relation_term }
pub open spec fn is_concatenation(ts: Seq<Token>, n: Node<Expression>) -> bool
    decreases ts.len(), 6int,
{
    ||| is_relation(ts, n)
    ||| n.value matches Expression::Concatenation(l, r) && exists|i: int| #[trigger] cut(ts, i)
        && ts[i].category == TokenCategory::And && n.position == ts[i].position && is_concatenation(ts.take(i), *l)
        && is_relation(ts.skip(i + 1), *r)
}

/// expression = concatenation_term, { "||", concatenation_term }
pub open spec fn is_expression(ts: Seq<Token>, n: Node<Expression>) -> bool
    decreases ts.len(), 7int,
{
    ||| is_concatenation(ts, n)
    ||| n.value matches Expression::Alternative(l, r) && exists|i: int| #[trigger] cut(ts, i)
        && ts[i].category == TokenCategory::Or && n.position == ts[i].position && is_expression(ts.take(i), *l)
        && is_concatenation(ts.skip(i + 1), *r)
}

/// argument = [ "&" ], expression; it stands where its expression does.
pub open spec fn is_argument(ts: Seq<Token>, a: Node<Argument>) -> bool
    decreases ts.len(), 8int,
{
    &&& a.position == a.value.value.position
    &&& {
        ||| a.value.passed_by == PassedBy::Value && is_expression(ts, a.value.value)
        ||| a.value.passed_by == PassedBy::Reference && ts.len() >= 1 && ts[0].category == TokenCategory::Reference
            && is_expression(ts.skip(1), a.value.value)
    }
}

/// arguments = [ argument, { ",", argument } ]; a lone "&" stands for no
/// arguments.
pub open spec fn is_arguments(ts: Seq<Token>, args: Seq<Node<Argument>>) -> bool
    decreases ts.len(), 9int,
{
    ||| args.len() == 0 && (ts.len() == 0 || (ts.len() == 1 && ts[0].category == TokenCategory::Reference))
    ||| args.len() == 1 && is_argument(ts, args[0])
    ||| args.len() >= 2 && exists|i: int| #[trigger] cut(ts, i) && ts[i].category == TokenCategory::Comma
        && is_arguments(ts.take(i), args.drop_last()) && is_argument(ts.skip(i + 1), args.last())
}

/// block = "{", { statement }, "}"
pub open spec fn is_block(ts: Seq<Token>, b: Node<Block>) -> bool
    decreases ts.len(), 10int,
{
    &&& ts.len() >= 2
    &&& ts[0].category == TokenCategory::BraceOpen
    &&& ts.last().category == TokenCategory::BraceClose
    &&& b.position == ts[0].position
    &&& is_statements(ts.subrange(1, ts.len() - 1), b.value.0@)
}

/// switch_expression = expression, [ ":", identifier ]; it stands where its
/// expression does. A ":" with no identifier after it gives no alias.
pub open spec fn is_switch_expression(ts: Seq<Token>, e: Node<SwitchExpression>) -> bool
    decreases ts.len(), 11int,
{
    &&& e.position == e.value.expression.position
    &&& match e.value.alias {
        None => is_expression(ts, e.value.expression) || (ts.len() >= 1 && ts.last().category == TokenCategory::Colon
            && is_expression(ts.drop_last(), e.value.expression)),
        Some(a) => ts.len() >= 2 && ts[ts.len() - 2].category == TokenCategory::Colon && is_identifier(ts.last(), a)
            && is_expression(ts.take(ts.len() - 2), e.value.expression),
    }
}

/// switch_expressions = [ switch_expression, { ",", switch_expression } ]
pub open spec fn is_switch_expressions(ts: Seq<Token>, es: Seq<Node<SwitchExpression>>) -> bool
    decreases ts.len(), 12int,
{
    ||| es.len() == 0 && ts.len() == 0
    ||| es.len() == 1 && is_switch_expression(ts, es[0])
    ||| es.len() >= 2 && exists|i: int| #[trigger] cut(ts, i) && ts[i].category == TokenCategory::Comma
        && is_switch_expressions(ts.take(i), es.drop_last()) && is_switch_expression(ts.skip(i + 1), es.last())
}

/// declaration = type, identifier, [ "=", [ expression ] ]; it stands where
/// its type does.
pub open spec fn is_declaration(ts: Seq<Token>, s: Node<Statement>) -> bool
    decreases ts.len(), 13int,
{
    &&& ts.len() >= 2
    &&& s.value matches Statement::Declaration { var_type, identifier, value }
    &&& spec_type_of(ts[0].category) == Some(var_type.value)
    &&& var_type.position == ts[0].position
    &&& s.position == ts[0].position
    &&& is_identifier(ts[1], identifier)
    &&& match value {
        None => ts.len() == 2 || (ts.len() == 3 && ts[2].category == TokenCategory::Assign),
        Some(e) => ts.len() >= 3 && ts[2].category == TokenCategory::Assign && is_expression(ts.skip(3), e),
    }
}

/// The declaration part of a `for` header, which may be left out.
pub open spec fn is_for_declaration(ts: Seq<Token>, d: Option<Box<Node<Statement>>>) -> bool
    decreases ts.len(), 14int,
{
    match d {
        None => ts.len() == 0,
        Some(s) => is_declaration(ts, *s),
    }
}

/// The step of a `for` header, which may be left out: identifier, "=",
/// expression; it stands where its identifier does.
pub open spec fn is_for_step(ts: Seq<Token>, a: Option<Box<Node<Statement>>>) -> bool
    decreases ts.len(), 15int,
{
    match a {
        None => ts.len() == 0,
        Some(s) => ts.len() >= 2 && s.position == ts[0].position && ts[1].category == TokenCategory::Assign && (
        s.value matches Statement::Assignment { identifier, value } && is_identifier(ts[0], identifier) && is_expression(
            ts.skip(2),
            value,
        )),
    }
}

/// The blocks of an `if` statement: block, [ "else", [ block ] ]. An `else`
/// with no block after it gives no else block.
pub open spec fn is_if_blocks(ts: Seq<Token>, if_block: Node<Block>, else_block: Option<Node<Block>>) -> bool
    decreases ts.len(), 16int,
{
    match else_block {
        None => is_block(ts, if_block) || (ts.len() >= 1 && ts.last().category == TokenCategory::Else && is_block(
            ts.drop_last(),
            if_block,
        )),
        Some(b) => exists|i: int| #[trigger] cut(ts, i) && ts[i].category == TokenCategory::Else && is_block(ts.take(i), if_block)
            && is_block(ts.skip(i + 1), b),
    }
}

/// What follows "if (": expression, ")", the blocks.
pub open spec fn is_if_rest(
    ts: Seq<Token>,
    condition: Node<Expression>,
    if_block: Node<Block>,
    else_block: Option<Node<Block>>,
) -> bool
    decreases ts.len(), 17int,
{
    exists|i: int| #[trigger] cut(ts, i) && ts[i].category == TokenCategory::ParenClose && is_expression(ts.take(i), condition)
        && is_if_blocks(ts.skip(i + 1), if_block, else_block)
}

/// The end of a `for` statement: [ step ], ")", block.
pub open spec fn is_for_end(ts: Seq<Token>, step: Option<Box<Node<Statement>>>, block: Node<Block>) -> bool
    decreases ts.len(), 18int,
{
    exists|i: int| #[trigger] cut(ts, i) && ts[i].category == TokenCategory::ParenClose && is_for_step(ts.take(i), step)
        && is_block(ts.skip(i + 1), block)
}

/// The middle of a `for` statement: expression, ";", the end.
pub open spec fn is_for_condition(
    ts: Seq<Token>,
    condition: Node<Expression>,
    step: Option<Box<Node<Statement>>>,
    block: Node<Block>,
) -> bool
    decreases ts.len(), 19int,
{
    exists|i: int| #[trigger] cut(ts, i) && ts[i].category == TokenCategory::Semicolon && is_expression(ts.take(i), condition)
        && is_for_end(ts.skip(i + 1), step, block)
}

/// What follows "for (": [ declaration ], ";", the middle.
pub open spec fn is_for_rest(
    ts: Seq<Token>,
    declaration: Option<Box<Node<Statement>>>,
    condition: Node<Expression>,
    step: Option<Box<Node<Statement>>>,
    block: Node<Block>,
) -> bool
    decreases ts.len(), 20int,
{
    exists|i: int| #[trigger] cut(ts, i) && ts[i].category == TokenCategory::Semicolon && is_for_declaration(
        ts.take(i),
        declaration,
    ) && is_for_condition(ts.skip(i + 1), condition, step, block)
}

/// switch_case = "(", expression, ")", "->", block; it stands where its
/// "(" does.
pub open spec fn is_switch_case(ts: Seq<Token>, c: Node<SwitchCase>) -> bool
    decreases ts.len(), 21int,
{
    &&& ts.len() >= 1
    &&& ts[0].category == TokenCategory::ParenOpen
    &&& c.position == ts[0].position
    &&& exists|i: int| #[trigger] cut(ts, i) && 1 <= i && i + 1 < ts.len() && ts[i].category == TokenCategory::ParenClose
        && ts[i + 1].category == TokenCategory::Arrow && is_expression(ts.subrange(1, i), c.value.condition) && is_block(
        ts.skip(i + 2),
        c.value.block,
    )
}

/// A run of switch cases.
pub open spec fn is_switch_cases(ts: Seq<Token>, cs: Seq<Node<SwitchCase>>) -> bool
    decreases ts.len(), 22int,
{
    ||| cs.len() == 0 && ts.len() == 0
    ||| cs.len() >= 1 && exists|i: int| #[trigger] cut(ts, i) && is_switch_cases(ts.take(i), cs.drop_last()) && is_switch_case(
        ts.skip(i),
        cs.last(),
    )
}

/// What follows "switch (": switch_expressions, ")", "{", { switch_case }, "}".
pub open spec fn is_switch_rest(ts: Seq<Token>, es: Seq<Node<SwitchExpression>>, cs: Seq<Node<SwitchCase>>) -> bool
    decreases ts.len(), 23int,
{
    exists|i: int| #[trigger] cut(ts, i) && ts[i].category == TokenCategory::ParenClose && is_switch_expressions(ts.take(i), es)
        && ts.len() >= i + 3 && ts[i + 1].category == TokenCategory::BraceOpen && ts.last().category == TokenCategory::BraceClose
        && is_switch_cases(ts.subrange(i + 2, ts.len() - 1), cs)
}

/// statement = assignment | call | declaration | if | for | switch | return
/// | break. Each stands where its first token does.
pub open spec fn is_statement(ts: Seq<Token>, s: Node<Statement>) -> bool
    decreases ts.len(), 24int,
{
    &&& ts.len() >= 1
    &&& match s.value {
        Statement::Assignment { identifier, value } => ts.len() >= 3 && is_identifier(ts[0], identifier) && s.position
            == ts[0].position && ts[1].category == TokenCategory::Assign && ts.last().category == TokenCategory::Semicolon
            && is_expression(ts.subrange(2, ts.len() - 1), value),
        Statement::FunctionCall { identifier, arguments } => ts.len() >= 4 && is_identifier(ts[0], identifier)
            && s.position == ts[0].position && ts[1].category == TokenCategory::ParenOpen && ts[ts.len() - 2].category
            == TokenCategory::ParenClose && ts.last().category == TokenCategory::Semicolon && is_arguments(
            ts.subrange(2, ts.len() - 2),
            arguments@,
        ),
        Statement::Declaration { .. } => ts.last().category == TokenCategory::Semicolon && is_declaration(ts.drop_last(), s),
        Statement::Conditional { condition, if_block, else_block } => ts.len() >= 2 && ts[0].category == TokenCategory::If
            && ts[1].category == TokenCategory::ParenOpen && s.position == ts[0].position && is_if_rest(
            ts.skip(2),
            condition,
            if_block,
            else_block,
        ),
        Statement::ForLoop { declaration, condition, assignment, block } => ts.len() >= 2 && ts[0].category
            == TokenCategory::For && ts[1].category == TokenCategory::ParenOpen && s.position == ts[0].position
            && is_for_rest(ts.skip(2), declaration, condition, assignment, block),
        Statement::Switch { expressions, cases } => ts.len() >= 2 && ts[0].category == TokenCategory::Switch
            && ts[1].category == TokenCategory::ParenOpen && s.position == ts[0].position && is_switch_rest(
            ts.skip(2),
            expressions@,
            cases@,
        ),
        Statement::Return(value) => ts.len() >= 2 && ts[0].category == TokenCategory::Return && ts.last().category
            == TokenCategory::Semicolon && s.position == ts[0].position && match value {
            None => ts.len() == 2,
            Some(e) => is_expression(ts.subrange(1, ts.len() - 1), e),
        },
        Statement::Break => ts.len() == 2 && ts[0].category == TokenCategory::Break && ts[1].category
            == TokenCategory::Semicolon && s.position == ts[0].position,
    }
}

/// A run of statements.
pub open spec fn is_statements(ts: Seq<Token>, ss: Seq<Node<Statement>>) -> bool
    decreases ts.len(), 25int,
{
    ||| ss.len() == 0 && ts.len() == 0
    ||| ss.len() >= 1 && exists|i: int| #[trigger] cut(ts, i) && is_statements(ts.take(i), ss.drop_last()) && is_statement(
        ts.skip(i),
        ss.last(),
    )
}

/// parameter = [ "&" ], type, identifier; it stands where its first token
/// does.
pub open spec fn is_parameter(ts: Seq<Token>, p: Node<Parameter>) -> bool {
    &&& ts.len() >= 2
    &&& p.position == ts[0].position
    &&& is_identifier(ts.last(), p.value.identifier)
    &&& spec_type_of(ts[ts.len() - 2].category) == Some(p.value.parameter_type.value)
    &&& p.value.parameter_type.position == ts[ts.len() - 2].position
    &&& match p.value.passed_by {
        PassedBy::Value => ts.len() == 2,
        PassedBy::Reference => ts.len() == 3 && ts[0].category == TokenCategory::Reference,
    }
}

/// parameters = [ parameter, { ",", parameter } ]; a lone "&" stands for no
/// parameters.
pub open spec fn is_parameters(ts: Seq<Token>, ps: Seq<Node<Parameter>>) -> bool
    decreases ts.len(),
{
    ||| ps.len() == 0 && (ts.len() == 0 || (ts.len() == 1 && ts[0].category == TokenCategory::Reference))
    ||| ps.len() == 1 && is_parameter(ts, ps[0])
    ||| ps.len() >= 2 && exists|i: int| #[trigger] cut(ts, i) && ts[i].category == TokenCategory::Comma
        && is_parameters(ts.take(i), ps.drop_last()) && is_parameter(ts.skip(i + 1), ps.last())
}

/// The return type of a function: a type or `void`.
pub open spec fn is_return_type(t: Token, r: Node<Type>) -> bool {
    &&& r.position == t.position
    &&& (spec_type_of(t.category) == Some(r.value) || (t.category == TokenCategory::Void && r.value == Type::Void))
}

/// function_declaration = "fn", identifier, "(", parameters, ")", ":", type |
/// "void", block; it stands where its "fn" does.
pub open spec fn is_function(ts: Seq<Token>, f: Node<FunctionDeclaration>) -> bool {
    &&& ts.len() >= 3
    &&& ts[0].category == TokenCategory::Fn
    &&& f.position == ts[0].position
    &&& is_identifier(ts[1], f.value.identifier)
    &&& ts[2].category == TokenCategory::ParenOpen
    &&& exists|i: int| #[trigger] cut(ts, i) && 3 <= i && i + 2 < ts.len() && ts[i].category == TokenCategory::ParenClose
        && is_parameters(ts.subrange(3, i), f.value.parameters@) && ts[i + 1].category == TokenCategory::Colon && is_return_type(
        ts[i + 2],
        f.value.return_type,
    ) && is_block(ts.skip(i + 3), f.value.block)
}

/// A program's items: statements and function declarations in any order;
/// `ss` are its statements and `fs` its functions, each in order.
pub open spec fn is_items(ts: Seq<Token>, ss: Seq<Node<Statement>>, fs: Seq<Node<FunctionDeclaration>>) -> bool
    decreases ts.len(),
{
    ||| ss.len() == 0 && fs.len() == 0 && ts.len() == 0
    ||| ss.len() >= 1 && exists|i: int| #[trigger] cut(ts, i) && is_items(ts.take(i), ss.drop_last(), fs) && is_statement(
        ts.skip(i),
        ss.last(),
    )
    ||| fs.len() >= 1 && exists|i: int| #[trigger] cut(ts, i) && is_items(ts.take(i), ss, fs.drop_last()) && is_function(
        ts.skip(i),
        fs.last(),
    )
}

/// program = { statement | function_declaration }, end of text. The first
/// `skipped` tokens were read before the program's text begins (the
/// start-of-text marker among them).
pub open spec fn is_program(ts: Seq<Token>, skipped: int, p: Program) -> bool {
    &&& 0 <= skipped < ts.len()
    &&& ts.last().category == TokenCategory::ETX
    &&& is_items(ts.subrange(skipped, ts.len() - 1), p.statements@, p.functions@)
}

} // verus!
