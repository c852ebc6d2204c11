//! The tree-walking interpreter.
//!
//! The interpreter never blocks on input: the lines a program reads are
//! given up front, and when it needs one more it stops with
//! `Halt::NeedsInput`. Running the same program again with the line added
//! replays the same steps, since every step depends only on the program and
//! the lines given.
use vstd::prelude::*;
use vstd::string::StringExecFns;
use crate::ast::Parameter;

use crate::alu::{
    arithmetic_negate_outcome, boolean_negate_outcome, cast_outcome, add_outcome, alternative_outcome, concatenation_outcome, division_outcome, equal_outcome, greater_or_equal_outcome,
    greater_outcome, less_or_equal_outcome, less_outcome, multiplication_outcome, not_equal_outcome, subtract_outcome, float_difference_outcome,
    float_product_outcome, float_quotient_outcome, float_sum_outcome, ALU,
};
use crate::ast::{spec_type_text, Argument, Block, Expression, FunctionDeclaration, Literal, Node, PassedBy, Program, Statement, SwitchCase, SwitchExpression, Type};
use crate::float::FloatArithmetic;
use crate::issues::{ComputationIssue, InterpreterIssue};
use crate::position::{append_position_text, position_text, with_position, Position};
use crate::parser::functions_well_named;
use crate::stack::{same_outer_scopes, same_scopes, Stack, MAX_FRAMES};
use crate::execution::{
    all_plain, assigns, binds, block_runs, case_runs, cases_done, cases_run, closes, counted, declares, expression_step, expressions_run, for_runs,
    lemma_statements_stop, loop_runs, opens, plain, plain_for, plain_switch, reached, runs, statements_run, switch_runs, Run,
};
use crate::std_functions::{
    input_effect, modulo_result, print_effect, std_function_named, Console, InputLine, StdFunction, StdOutcome,
};
use crate::value::{is_default_value, spec_value_type, Value};

verus! {

/// Why a run stopped before the end of the program.
#[derive(Debug)]
pub enum Halt {
    /// An error, with its message.
    Failed(InterpreterIssue),
    /// `input` needs a line beyond those given.
    NeedsInput,
}

/// An argument of a call: a value, or the cell (frame, index) of a variable
/// passed by reference.
#[derive(Debug)]
pub enum CallArgument {
    Value(Value),
    Reference(usize, usize),
}

#[derive(Debug, Clone, Copy, PartialEq, Eq, Structural)]
pub enum BinaryOp {
    Alternative,
    Concatenation,
    Greater,
    GreaterEqual,
    Less,
    LessEqual,
    Equal,
    NotEqual,
    Addition,
    Subtraction,
    Multiplication,
    Division,
}

pub open spec fn failed_with(r: Result<(), Halt>, text: Seq<char>) -> bool {
    r matches Err(Halt::Failed(e)) && e.message@ == text
}

/// `Condition in '{place}' has to evaluate to type 'bool' - got '{got}'.`
/// at `p`.
pub open spec fn condition_text(place: Seq<char>, got: Type, p: Position) -> Seq<char> {
    with_position("Condition in '"@ + place + "' has to evaluate to type 'bool' - got '"@ + spec_type_text(got) + "'."@, p)
}

/// `Cannot assign value of type '{got}' to variable '{name}' of type '{declared}'.`
pub open spec fn declare_type_text(got: Type, name: Seq<char>, declared: Type) -> Seq<char> {
    "Cannot assign value of type '"@ + spec_type_text(got) + "' to variable '"@ + name + "' of type '"@ + spec_type_text(declared)
        + "'."@
}

/// `Cannot assign '{got}' to variable '{name}' which was previously declared as '{held}'.`
pub open spec fn assign_type_text(name: Seq<char>, got: Type, held: Type) -> Seq<char> {
    "Cannot assign '"@ + spec_type_text(got) + "' to variable '"@ + name + "' which was previously declared as '"@ + spec_type_text(held)
        + "'."@
}

/// `Function '{name}' expected '{expected}', but got '{got}'.`
pub open spec fn argument_type_text(name: Seq<char>, expected: Type, got: Type) -> Seq<char> {
    "Function '"@ + name + "' expected '"@ + spec_type_text(expected) + "', but got '"@ + spec_type_text(got) + "'."@
}

/// `Bad return type from function '{name}'. Expected '{expected}', but got 'None'.`
pub open spec fn no_return_value_text(name: Seq<char>, expected: Type) -> Seq<char> {
    "Bad return type from function '"@ + name + "'. Expected '"@ + spec_type_text(expected) + "', but got '"@ + "None"@ + "'."@
}

/// The argument is a value of the parameter's type.
pub open spec fn argument_fits(a: CallArgument, p: Node<Parameter>) -> bool {
    a matches CallArgument::Value(v) && spec_value_type(v) == p.value.parameter_type.value
}

/// No two parameters share a name.
pub open spec fn distinct_parameters(ps: Seq<Node<Parameter>>) -> bool {
    forall|i: int, j: int| 0 <= i < j < ps.len() ==> (#[trigger] ps[i]).value.identifier.value@ != (#[trigger] ps[j]).value.identifier.value@
}

/// Every outcome `e` may give in `s` is a value of type `t`.
pub open spec fn evaluates_to_type(e: Node<Expression>, s: Stack, t: Type) -> bool {
    forall|x: Result<Value, Seq<char>>| #[trigger] evaluates(e, s, x) ==> (x matches Ok(v) && spec_value_type(v) == t)
}

/// What `+`, `-`, `*` and `/` give on two doubles: the rounded result the
/// float unit `fl` computes for exactly those operands, checked.
pub open spec fn float_binary_outcome<F: FloatArithmetic>(fl: &F, op: BinaryOp, a: Value, b: Value, r: Result<Value, ComputationIssue>) -> bool {
    a matches Value::F64(x) ==> b matches Value::F64(y) ==> match op {
        BinaryOp::Addition => float_sum_outcome(fl, x, y, r),
        BinaryOp::Subtraction => float_difference_outcome(fl, x, y, r),
        BinaryOp::Multiplication => float_product_outcome(fl, x, y, r),
        BinaryOp::Division => float_quotient_outcome(fl, x, y, r),
        _ => true,
    }
}

/// The value a literal stands for; a float literal stands for the double
/// the float unit `fl` rounds its decimal digits to.
pub open spec fn literal_value<F: FloatArithmetic>(fl: &F, l: Literal, v: Value) -> bool {
    match l {
        Literal::True => v == Value::Bool(true),
        Literal::False => v == Value::Bool(false),
        Literal::I64(i) => v == Value::I64(i),
        Literal::String(t) => v matches Value::String(u) && u@ == t@,
        Literal::F64(f) => v matches Value::F64(x) && call_ensures(F::from_literal, (fl, f), x),
    }
}

/// A float literal stands for the double the float unit rounds exactly its
/// digits `integral.fraction` to, never the double of other digits (such as
/// its integral part alone).
pub proof fn law_float_literal_is_unit_rounding<F: FloatArithmetic>(fl: &F, f: crate::tokens::FloatLiteral, v: Value)
    requires
        literal_value(fl, Literal::F64(f), v),
    ensures
        v matches Value::F64(x) && call_ensures(F::from_literal, (fl, f), x),
{
}

/// Adding two doubles in a program computes the float unit's sum of exactly
/// those two doubles, and subtracting its difference: a finite result is
/// that value, and nothing else is produced.
pub proof fn law_float_operators_use_unit<F: FloatArithmetic>(fl: &F, a: u64, b: u64, sum: Result<Value, ComputationIssue>, difference: Result<Value, ComputationIssue>)
    requires
        float_binary_outcome(fl, BinaryOp::Addition, Value::F64(a), Value::F64(b), sum),
        float_binary_outcome(fl, BinaryOp::Subtraction, Value::F64(a), Value::F64(b), difference),
    ensures
        sum matches Ok(v) ==> (v matches Value::F64(x) && call_ensures(F::add, (fl, a, b), x)),
        difference matches Ok(v) ==> (v matches Value::F64(x) && call_ensures(F::sub, (fl, a, b), x)),
{
}

/// What the binary operator `op` gives for `a` and `b`.
pub open spec fn binary_outcome(op: BinaryOp, a: Value, b: Value, r: Result<Value, ComputationIssue>) -> bool {
    match op {
        BinaryOp::Alternative => alternative_outcome(a, b, r),
        BinaryOp::Concatenation => concatenation_outcome(a, b, r),
        BinaryOp::Greater => greater_outcome(a, b, r),
        BinaryOp::GreaterEqual => greater_or_equal_outcome(a, b, r),
        BinaryOp::Less => less_outcome(a, b, r),
        BinaryOp::LessEqual => less_or_equal_outcome(a, b, r),
        BinaryOp::Equal => equal_outcome(a, b, r),
        BinaryOp::NotEqual => not_equal_outcome(a, b, r),
        BinaryOp::Addition => add_outcome(a, b, r),
        BinaryOp::Subtraction => subtract_outcome(a, b, r),
        BinaryOp::Multiplication => multiplication_outcome(a, b, r),
        BinaryOp::Division => division_outcome(a, b, r),
    }
}

/// An expression that calls no function.
pub open spec fn call_free(e: Node<Expression>) -> bool
    decreases e,
{
    match e.value {
        Expression::FunctionCall { .. } => false,
        Expression::Alternative(l, r) => call_free(*l) && call_free(*r),
        Expression::Concatenation(l, r) => call_free(*l) && call_free(*r),
        Expression::Greater(l, r) => call_free(*l) && call_free(*r),
        Expression::GreaterEqual(l, r) => call_free(*l) && call_free(*r),
        Expression::Less(l, r) => call_free(*l) && call_free(*r),
        Expression::LessEqual(l, r) => call_free(*l) && call_free(*r),
        Expression::Equal(l, r) => call_free(*l) && call_free(*r),
        Expression::NotEqual(l, r) => call_free(*l) && call_free(*r),
        Expression::Addition(l, r) => call_free(*l) && call_free(*r),
        Expression::Subtraction(l, r) => call_free(*l) && call_free(*r),
        Expression::Multiplication(l, r) => call_free(*l) && call_free(*r),
        Expression::Division(l, r) => call_free(*l) && call_free(*r),
        Expression::BooleanNegation(v) => call_free(*v),
        Expression::ArithmeticNegation(v) => call_free(*v),
        Expression::Casting { value, .. } => call_free(*value),
        Expression::Literal(_) => true,
        Expression::Variable(_) => true,
    }
}

/// How many nodes an expression has: the steps its evaluation takes.
pub open spec fn expression_size(e: Node<Expression>) -> nat
    decreases e,
{
    match e.value {
        Expression::Alternative(l, r) => 1 + expression_size(*l) + expression_size(*r),
        Expression::Concatenation(l, r) => 1 + expression_size(*l) + expression_size(*r),
        Expression::Greater(l, r) => 1 + expression_size(*l) + expression_size(*r),
        Expression::GreaterEqual(l, r) => 1 + expression_size(*l) + expression_size(*r),
        Expression::Less(l, r) => 1 + expression_size(*l) + expression_size(*r),
        Expression::LessEqual(l, r) => 1 + expression_size(*l) + expression_size(*r),
        Expression::Equal(l, r) => 1 + expression_size(*l) + expression_size(*r),
        Expression::NotEqual(l, r) => 1 + expression_size(*l) + expression_size(*r),
        Expression::Addition(l, r) => 1 + expression_size(*l) + expression_size(*r),
        Expression::Subtraction(l, r) => 1 + expression_size(*l) + expression_size(*r),
        Expression::Multiplication(l, r) => 1 + expression_size(*l) + expression_size(*r),
        Expression::Division(l, r) => 1 + expression_size(*l) + expression_size(*r),
        Expression::BooleanNegation(v) => 1 + expression_size(*v),
        Expression::ArithmeticNegation(v) => 1 + expression_size(*v),
        Expression::Casting { value, .. } => 1 + expression_size(*value),
        _ => 1,
    }
}

/// Where evaluation last stood once `e` is evaluated: the last leaf
/// visited. An operator's error is reported there.
pub open spec fn last_position(e: Node<Expression>) -> Position
    decreases e,
{
    match e.value {
        Expression::Alternative(_, r) => last_position(*r),
        Expression::Concatenation(_, r) => last_position(*r),
        Expression::Greater(_, r) => last_position(*r),
        Expression::GreaterEqual(_, r) => last_position(*r),
        Expression::Less(_, r) => last_position(*r),
        Expression::LessEqual(_, r) => last_position(*r),
        Expression::Equal(_, r) => last_position(*r),
        Expression::NotEqual(_, r) => last_position(*r),
        Expression::Addition(_, r) => last_position(*r),
        Expression::Subtraction(_, r) => last_position(*r),
        Expression::Multiplication(_, r) => last_position(*r),
        Expression::Division(_, r) => last_position(*r),
        Expression::BooleanNegation(v) => last_position(*v),
        Expression::ArithmeticNegation(v) => last_position(*v),
        Expression::Casting { value, .. } => last_position(*value),
        _ => e.position,
    }
}

/// An operator's outcome as an evaluation's: its error's message gets the
/// position `p`.
pub open spec fn lift(c: Result<Value, ComputationIssue>, p: Position) -> Result<Value, Seq<char>> {
    match c {
        Ok(v) => Ok(v),
        Err(e) => Err(with_position(e.message@, p)),
    }
}

/// The binary operator of an expression.
pub open spec fn binary_op_of(e: Expression) -> BinaryOp {
    match e {
        Expression::Alternative(_, _) => BinaryOp::Alternative,
        Expression::Concatenation(_, _) => BinaryOp::Concatenation,
        Expression::Greater(_, _) => BinaryOp::Greater,
        Expression::GreaterEqual(_, _) => BinaryOp::GreaterEqual,
        Expression::Less(_, _) => BinaryOp::Less,
        Expression::LessEqual(_, _) => BinaryOp::LessEqual,
        Expression::Equal(_, _) => BinaryOp::Equal,
        Expression::NotEqual(_, _) => BinaryOp::NotEqual,
        Expression::Addition(_, _) => BinaryOp::Addition,
        Expression::Subtraction(_, _) => BinaryOp::Subtraction,
        Expression::Multiplication(_, _) => BinaryOp::Multiplication,
        _ => BinaryOp::Division,
    }
}

/// Holds of every outcome. The quantifiers over outcomes of the
/// evaluations of subexpressions are triggered by it: a trigger on the
/// recursive relation itself is not matched by the prover.
pub open spec fn step(x: Result<Value, Seq<char>>) -> bool {
    true
}

/// What a binary expression gives once its left operand gave `xl`: the
/// right operand is evaluated only after a value on the left.
pub open spec fn binary_evaluates(
    op: BinaryOp,
    xl: Result<Value, Seq<char>>,
    r: Node<Expression>,
    s: Stack,
    p: Position,
    out: Result<Value, Seq<char>>,
) -> bool
    decreases r, 1int,
{
    match xl {
        Err(m) => out == Err::<Value, Seq<char>>(m),
        Ok(a) => exists|xr: Result<Value, Seq<char>>|
            #[trigger] step(xr) && evaluates(r, s, xr) && match xr {
                Err(m) => out == Err::<Value, Seq<char>>(m),
                Ok(b) => exists|c: Result<Value, ComputationIssue>| #[trigger] binary_outcome(op, a, b, c) && out == lift(c, p),
            },
    }
}

/// What evaluating a call-free expression `e` on the variables `s` may
/// give: a value, or an error's message. It is a relation rather than a
/// function only because the rounding of float arithmetic is not stated.
pub open spec fn evaluates(e: Node<Expression>, s: Stack, out: Result<Value, Seq<char>>) -> bool
    decreases e, 0int,
{
    match e.value {
        Expression::Literal(literal) => match literal {
            Literal::True => out == Ok::<Value, Seq<char>>(Value::Bool(true)),
            Literal::False => out == Ok::<Value, Seq<char>>(Value::Bool(false)),
            Literal::I64(i) => out == Ok::<Value, Seq<char>>(Value::I64(i)),
            Literal::String(t) => out matches Ok(Value::String(v)) && v@ == t@,
            Literal::F64(_) => out matches Ok(Value::F64(_)),
        },
        Expression::Variable(name) => match s.value_of(name@) {
            Some(v) => out == Ok::<Value, Seq<char>>(v),
            None => out == Err::<Value, Seq<char>>(crate::scope_manager::not_declared_text(name@)),
        },
        Expression::BooleanNegation(v) => exists|x: Result<Value, Seq<char>>|
            #[trigger] step(x) && evaluates(*v, s, x) && match x {
                Err(m) => out == Err::<Value, Seq<char>>(m),
                Ok(a) => exists|c: Result<Value, ComputationIssue>| #[trigger] boolean_negate_outcome(a, c) && out == lift(c, last_position(e)),
            },
        Expression::ArithmeticNegation(v) => exists|x: Result<Value, Seq<char>>|
            #[trigger] step(x) && evaluates(*v, s, x) && match x {
                Err(m) => out == Err::<Value, Seq<char>>(m),
                Ok(a) => exists|c: Result<Value, ComputationIssue>| #[trigger] arithmetic_negate_outcome(a, c) && out == lift(c, last_position(e)),
            },
        Expression::Casting { value, to_type } => exists|x: Result<Value, Seq<char>>|
            #[trigger] step(x) && evaluates(*value, s, x) && match x {
                Err(m) => out == Err::<Value, Seq<char>>(m),
                Ok(a) => exists|c: Result<Value, ComputationIssue>| #[trigger] cast_outcome(a, to_type.value, c) && out == lift(c, last_position(e)),
            },
        Expression::FunctionCall { .. } => false,
        Expression::Alternative(l, r) => exists|xl: Result<Value, Seq<char>>| #[trigger] step(xl) && evaluates(*l, s, xl) && binary_evaluates(BinaryOp::Alternative, xl, *r, s, last_position(e), out),
        Expression::Concatenation(l, r) => exists|xl: Result<Value, Seq<char>>| #[trigger] step(xl) && evaluates(*l, s, xl) && binary_evaluates(BinaryOp::Concatenation, xl, *r, s, last_position(e), out),
        Expression::Greater(l, r) => exists|xl: Result<Value, Seq<char>>| #[trigger] step(xl) && evaluates(*l, s, xl) && binary_evaluates(BinaryOp::Greater, xl, *r, s, last_position(e), out),
        Expression::GreaterEqual(l, r) => exists|xl: Result<Value, Seq<char>>| #[trigger] step(xl) && evaluates(*l, s, xl) && binary_evaluates(BinaryOp::GreaterEqual, xl, *r, s, last_position(e), out),
        Expression::Less(l, r) => exists|xl: Result<Value, Seq<char>>| #[trigger] step(xl) && evaluates(*l, s, xl) && binary_evaluates(BinaryOp::Less, xl, *r, s, last_position(e), out),
        Expression::LessEqual(l, r) => exists|xl: Result<Value, Seq<char>>| #[trigger] step(xl) && evaluates(*l, s, xl) && binary_evaluates(BinaryOp::LessEqual, xl, *r, s, last_position(e), out),
        Expression::Equal(l, r) => exists|xl: Result<Value, Seq<char>>| #[trigger] step(xl) && evaluates(*l, s, xl) && binary_evaluates(BinaryOp::Equal, xl, *r, s, last_position(e), out),
        Expression::NotEqual(l, r) => exists|xl: Result<Value, Seq<char>>| #[trigger] step(xl) && evaluates(*l, s, xl) && binary_evaluates(BinaryOp::NotEqual, xl, *r, s, last_position(e), out),
        Expression::Addition(l, r) => exists|xl: Result<Value, Seq<char>>| #[trigger] step(xl) && evaluates(*l, s, xl) && binary_evaluates(BinaryOp::Addition, xl, *r, s, last_position(e), out),
        Expression::Subtraction(l, r) => exists|xl: Result<Value, Seq<char>>| #[trigger] step(xl) && evaluates(*l, s, xl) && binary_evaluates(BinaryOp::Subtraction, xl, *r, s, last_position(e), out),
        Expression::Multiplication(l, r) => exists|xl: Result<Value, Seq<char>>| #[trigger] step(xl) && evaluates(*l, s, xl) && binary_evaluates(BinaryOp::Multiplication, xl, *r, s, last_position(e), out),
        Expression::Division(l, r) => exists|xl: Result<Value, Seq<char>>| #[trigger] step(xl) && evaluates(*l, s, xl) && binary_evaluates(BinaryOp::Division, xl, *r, s, last_position(e), out),
    }
}

/// Every argument is passed by value and calls no function.
pub open spec fn plain_arguments(args: Seq<Node<Argument>>) -> bool {
    forall|k: int| 0 <= k < args.len() ==> (#[trigger] args[k]).value.passed_by == PassedBy::Value && call_free(args[k].value.value)
}

/// Whatever each argument may evaluate to in `s` is a value, not an error.
pub open spec fn arguments_succeed(args: Seq<Node<Argument>>, s: Stack) -> bool {
    forall|k: int, x: Result<Value, Seq<char>>| 0 <= k < args.len() && #[trigger] evaluates(args[k].value.value, s, x) ==> x is Ok
}

/// Evaluation reads the variables only through their values: stacks that
/// give every name the same value give an expression the same outcomes.
pub proof fn lemma_evaluates_by_values(e: Node<Expression>, s: Stack, t: Stack, x: Result<Value, Seq<char>>)
    requires
        forall|n: Seq<char>| #[trigger] s.value_of(n) == t.value_of(n),
    ensures
        evaluates(e, s, x) == evaluates(e, t, x),
    decreases e, 1int,
{
    match e.value {
        Expression::BooleanNegation(v) => {
            lemma_operand_by_values(*v, s, t);
            if evaluates(e, s, x) {
                let y = choose|y: Result<Value, Seq<char>>|
                    #[trigger] step(y) && evaluates(*v, s, y) && match y {
                        Err(m) => x == Err::<Value, Seq<char>>(m),
                        Ok(a) => exists|c: Result<Value, ComputationIssue>| #[trigger] boolean_negate_outcome(a, c) && x == lift(c, last_position(e)),
                    };
                assert(step(y) && evaluates(*v, t, y));
            }
            if evaluates(e, t, x) {
                let y = choose|y: Result<Value, Seq<char>>|
                    #[trigger] step(y) && evaluates(*v, t, y) && match y {
                        Err(m) => x == Err::<Value, Seq<char>>(m),
                        Ok(a) => exists|c: Result<Value, ComputationIssue>| #[trigger] boolean_negate_outcome(a, c) && x == lift(c, last_position(e)),
                    };
                assert(step(y) && evaluates(*v, s, y));
            }
        },
        Expression::ArithmeticNegation(v) => {
            lemma_operand_by_values(*v, s, t);
            if evaluates(e, s, x) {
                let y = choose|y: Result<Value, Seq<char>>|
                    #[trigger] step(y) && evaluates(*v, s, y) && match y {
                        Err(m) => x == Err::<Value, Seq<char>>(m),
                        Ok(a) => exists|c: Result<Value, ComputationIssue>| #[trigger] arithmetic_negate_outcome(a, c) && x == lift(c, last_position(e)),
                    };
                assert(step(y) && evaluates(*v, t, y));
            }
            if evaluates(e, t, x) {
                let y = choose|y: Result<Value, Seq<char>>|
                    #[trigger] step(y) && evaluates(*v, t, y) && match y {
                        Err(m) => x == Err::<Value, Seq<char>>(m),
                        Ok(a) => exists|c: Result<Value, ComputationIssue>| #[trigger] arithmetic_negate_outcome(a, c) && x == lift(c, last_position(e)),
                    };
                assert(step(y) && evaluates(*v, s, y));
            }
        },
        Expression::Casting { value, to_type } => {
            lemma_operand_by_values(*value, s, t);
            if evaluates(e, s, x) {
                let y = choose|y: Result<Value, Seq<char>>|
                    #[trigger] step(y) && evaluates(*value, s, y) && match y {
                        Err(m) => x == Err::<Value, Seq<char>>(m),
                        Ok(a) => exists|c: Result<Value, ComputationIssue>| #[trigger] cast_outcome(a, to_type.value, c) && x == lift(c, last_position(e)),
                    };
                assert(step(y) && evaluates(*value, t, y));
            }
            if evaluates(e, t, x) {
                let y = choose|y: Result<Value, Seq<char>>|
                    #[trigger] step(y) && evaluates(*value, t, y) && match y {
                        Err(m) => x == Err::<Value, Seq<char>>(m),
                        Ok(a) => exists|c: Result<Value, ComputationIssue>| #[trigger] cast_outcome(a, to_type.value, c) && x == lift(c, last_position(e)),
                    };
                assert(step(y) && evaluates(*value, s, y));
            }
        },
        Expression::Alternative(l, r) | Expression::Concatenation(l, r) | Expression::Greater(l, r) | Expression::GreaterEqual(l, r)
        | Expression::Less(l, r) | Expression::LessEqual(l, r) | Expression::Equal(l, r) | Expression::NotEqual(l, r)
        | Expression::Addition(l, r) | Expression::Subtraction(l, r) | Expression::Multiplication(l, r) | Expression::Division(l, r) => {
            let op = binary_op_of(e.value);
            let p = last_position(e);
            lemma_operand_by_values(*l, s, t);
            assert forall|xl: Result<Value, Seq<char>>| #[trigger] binary_evaluates(op, xl, *r, s, p, x) == binary_evaluates(op, xl, *r, t, p, x) by {
                lemma_binary_by_values(op, xl, *r, s, t, p, x);
            }
            if evaluates(e, s, x) {
                let y = choose|y: Result<Value, Seq<char>>| #[trigger] step(y) && evaluates(*l, s, y) && binary_evaluates(op, y, *r, s, p, x);
                assert(step(y) && evaluates(*l, t, y) && binary_evaluates(op, y, *r, t, p, x));
            }
            if evaluates(e, t, x) {
                let y = choose|y: Result<Value, Seq<char>>| #[trigger] step(y) && evaluates(*l, t, y) && binary_evaluates(op, y, *r, t, p, x);
                assert(step(y) && evaluates(*l, s, y) && binary_evaluates(op, y, *r, s, p, x));
            }
        },
        _ => {},
    }
}

/// As `lemma_evaluates_by_values`, for every outcome of an operand.
proof fn lemma_operand_by_values(v: Node<Expression>, s: Stack, t: Stack)
    requires
        forall|n: Seq<char>| #[trigger] s.value_of(n) == t.value_of(n),
    ensures
        forall|y: Result<Value, Seq<char>>| #[trigger] evaluates(v, s, y) == evaluates(v, t, y),
        forall|y: Result<Value, Seq<char>>| #[trigger] evaluates(v, t, y) == evaluates(v, s, y),
    decreases v, 2int,
{
    assert forall|y: Result<Value, Seq<char>>| #[trigger] evaluates(v, s, y) == evaluates(v, t, y) by {
        lemma_evaluates_by_values(v, s, t, y);
    }
}

/// As `lemma_evaluates_by_values`, for the right operand of a binary
/// expression.
proof fn lemma_binary_by_values(
    op: BinaryOp,
    xl: Result<Value, Seq<char>>,
    r: Node<Expression>,
    s: Stack,
    t: Stack,
    p: Position,
    x: Result<Value, Seq<char>>,
)
    requires
        forall|n: Seq<char>| #[trigger] s.value_of(n) == t.value_of(n),
    ensures
        binary_evaluates(op, xl, r, s, p, x) == binary_evaluates(op, xl, r, t, p, x),
    decreases r, 3int,
{
    lemma_operand_by_values(r, s, t);
    if let Ok(a) = xl {
        if binary_evaluates(op, xl, r, s, p, x) {
            let y = choose|y: Result<Value, Seq<char>>|
                #[trigger] step(y) && evaluates(r, s, y) && match y {
                    Err(m) => x == Err::<Value, Seq<char>>(m),
                    Ok(b) => exists|c: Result<Value, ComputationIssue>| #[trigger] binary_outcome(op, a, b, c) && x == lift(c, p),
                };
            assert(step(y) && evaluates(r, t, y));
        }
        if binary_evaluates(op, xl, r, t, p, x) {
            let y = choose|y: Result<Value, Seq<char>>|
                #[trigger] step(y) && evaluates(r, t, y) && match y {
                    Err(m) => x == Err::<Value, Seq<char>>(m),
                    Ok(b) => exists|c: Result<Value, ComputationIssue>| #[trigger] binary_outcome(op, a, b, c) && x == lift(c, p),
                };
            assert(step(y) && evaluates(r, s, y));
        }
    }
}

/// The steps evaluating the arguments takes.
pub open spec fn arguments_size(args: Seq<Node<Argument>>) -> nat
    decreases args.len(),
{
    if args.len() == 0 {
        0
    } else {
        arguments_size(args.drop_last()) + expression_size(args.last().value.value)
    }
}

proof fn lemma_arguments_size_prefix(args: Seq<Node<Argument>>, i: int)
    requires
        0 <= i <= args.len(),
    ensures
        arguments_size(args.take(i)) <= arguments_size(args),
    decreases args.len() - i,
{
    if i < args.len() {
        lemma_arguments_size_prefix(args, i + 1);
        assert(args.take(i + 1).drop_last() =~= args.take(i));
    } else {
        assert(args.take(i) =~= args);
    }
}

/// `vals` are the values the arguments `args` evaluate to on `s`.
pub open spec fn evaluated_arguments(args: Seq<Node<Argument>>, s: Stack, vals: Seq<Value>) -> bool {
    &&& vals.len() == args.len()
    &&& forall|k: int| 0 <= k < args.len() ==> #[trigger] evaluates(args[k].value.value, s, Ok(vals[k]))
}

/// What a call of the built-in function `f` on `vals` that went through
/// did: to the console, from `before` to `after`, and to the value it left.
pub open spec fn std_call_done(f: StdFunction, vals: Seq<Value>, before: Console, after: Console, result: Option<Value>) -> bool {
    match f {
        StdFunction::Print => print_effect(vals, before, after, StdOutcome::Returned(result)),
        StdFunction::Input => input_effect(vals, before, after, StdOutcome::Returned(result)),
        StdFunction::Modulo => modulo_result(vals, StdOutcome::Returned(result)) && after == before,
    }
}

/// What the built-in function `f` did on `vals`, from the console `before`
/// to `after`, with the outcome `o`.
pub open spec fn std_effect(f: StdFunction, vals: Seq<Value>, before: Console, after: Console, o: StdOutcome) -> bool {
    match f {
        StdFunction::Print => print_effect(vals, before, after, o),
        StdFunction::Input => input_effect(vals, before, after, o),
        StdFunction::Modulo => modulo_result(vals, o) && after == before,
    }
}

/// How a call ends, as `r` with `result` the last value, after its built-in
/// function had the outcome `o`.
pub open spec fn std_reply(o: StdOutcome, r: Result<(), Halt>, result: Option<Value>) -> bool {
    match o {
        StdOutcome::Returned(Some(v)) => r is Ok && result == Some(v),
        StdOutcome::Returned(None) => r is Ok,
        StdOutcome::Failed(e) => r matches Err(Halt::Failed(h)) && exists|p: Position| h.message@ == #[trigger] with_position(e.message@, p),
        StdOutcome::NeedsInput => r == Err::<(), Halt>(Halt::NeedsInput),
    }
}

/// A run's outcome as an evaluation's.
pub open spec fn run_outcome(r: Result<(), Halt>, last: Option<Value>) -> Result<Value, Seq<char>> {
    match r {
        Ok(_) => match last {
            Some(v) => Ok(v),
            None => Err(Seq::empty()),
        },
        Err(Halt::Failed(e)) => Err(e.message@),
        Err(Halt::NeedsInput) => Err(Seq::empty()),
    }
}

fn halt(text: String) -> (h: Halt)
    ensures
        h matches Halt::Failed(e) && e.message@ == text@,
{
    Halt::Failed(InterpreterIssue { message: text })
}

/// Runs a program. Floats are computed by `F`.
pub struct Interpreter<'a, F: FloatArithmetic> {
    program: &'a Program,
    floats: &'a F,
    stack: Stack,
    last_result: Option<Value>,
    is_breaking: bool,
    is_returning: bool,
    position: Position,
    last_arguments: Vec<CallArgument>,
    console: Console,
    fuel: u64,
}

impl<'a, F: FloatArithmetic> Interpreter<'a, F> {
    /// The stack is well formed and no more lines were read than given.
    pub closed spec fn inv(&self) -> bool {
        &&& self.stack.wf()
        &&& self.console.consumed <= self.console.input@.len()
    }

    pub closed spec fn spec_program(&self) -> Program {
        *self.program
    }

    /// The float unit the run computes doubles with.
    pub closed spec fn spec_floats(&self) -> &'a F {
        self.floats
    }

    pub closed spec fn spec_stack(&self) -> Stack {
        self.stack
    }

    pub closed spec fn spec_last_result(&self) -> Option<Value> {
        self.last_result
    }

    /// The steps the run may still take: each call and each turn of a loop
    /// takes one.
    pub closed spec fn spec_fuel(&self) -> nat {
        self.fuel as nat
    }

    /// What the program has written and the lines it is given.
    pub closed spec fn spec_console(&self) -> Console {
        self.console
    }

    pub closed spec fn spec_output(&self) -> Seq<String> {
        self.console.output@
    }

    pub closed spec fn spec_input(&self) -> Seq<InputLine> {
        self.console.input@
    }

    pub closed spec fn spec_consumed(&self) -> nat {
        self.console.consumed as nat
    }

    pub closed spec fn spec_position(&self) -> Position {
        self.position
    }

    /// The arguments of the call being made.
    pub closed spec fn spec_arguments(&self) -> Seq<CallArgument> {
        self.last_arguments@
    }

    pub closed spec fn spec_breaking(&self) -> bool {
        self.is_breaking
    }

    /// The variables, the pending `break` and the steps left.
    pub open spec fn run(&self) -> Run {
        (self.spec_stack(), self.spec_breaking(), self.spec_fuel())
    }

    pub closed spec fn spec_returning(&self) -> bool {
        self.is_returning
    }

    /// What a step of the run keeps: the program, the lines given, what was
    /// written and read so far (it only grows), and the remaining steps (they
    /// only shrink).
    pub open spec fn keeps(&self, next: &Self) -> bool {
        &&& next.inv()
        &&& next.spec_program() == self.spec_program()
        &&& next.spec_floats() == self.spec_floats()
        &&& next.spec_input() == self.spec_input()
        &&& next.spec_fuel() <= self.spec_fuel()
        &&& self.spec_consumed() <= next.spec_consumed()
        &&& self.spec_output().len() <= next.spec_output().len()
        &&& forall|i: int| 0 <= i < self.spec_output().len() ==> #[trigger] next.spec_output()[i] == self.spec_output()[i]
    }

    /// An interpreter for `program` that is given the lines `input` to read.
    pub fn new(program: &'a Program, floats: &'a F, input: Vec<InputLine>) -> (r: Self)
        ensures
            r.inv(),
            r.spec_program() == *program,
            r.spec_input() == input@,
            r.spec_consumed() == 0,
            r.spec_output().len() == 0,
            r.spec_fuel() == u64::MAX,
            r.spec_last_result() is None,
            !r.spec_breaking() && !r.spec_returning(),
            r.spec_stack().frame_count() == 1,
            r.spec_stack().top().scope_count() == 1,
            forall|name: Seq<char>| r.spec_stack().binding_of(name) is None,
    {
        Interpreter {
            program,
            floats,
            stack: Stack::new(),
            last_result: None,
            is_breaking: false,
            is_returning: false,
            position: Position { line: 0, column: 0, offset: 0 },
            last_arguments: Vec::new(),
            console: Console { output: Vec::new(), input, consumed: 0 },
            fuel: u64::MAX,
        }
    }

    /// The variables of the running program.
    pub fn stack(&self) -> (s: &Stack)
        ensures
            *s == self.spec_stack(),
    {
        &self.stack
    }

    /// The value the last expression produced, if it was not taken yet.
    pub fn last_result(&self) -> (r: &Option<Value>)
        ensures
            *r == self.spec_last_result(),
    {
        &self.last_result
    }

    /// Whether a `break` is pending.
    pub fn is_breaking(&self) -> (b: bool)
        ensures
            b == self.spec_breaking(),
    {
        self.is_breaking
    }

    /// Whether a `return` is pending.
    pub fn is_returning(&self) -> (b: bool)
        ensures
            b == self.spec_returning(),
    {
        self.is_returning
    }

    /// Declares a variable of the innermost call, as a declaration
    /// statement would.
    pub fn declare_variable(&mut self, name: &str, value: Value) -> (r: Result<(), crate::issues::ScopeManagerIssue>)
        requires
            old(self).inv(),
        ensures
            old(self).keeps(final(self)),
            old(self).spec_stack().binding_of(name@) is None && old(self).spec_stack().top().scope_count() > 0 <==> r is Ok,
            old(self).spec_stack().binding_of(name@) is Some ==> (r matches Err(e) && e.message@ == crate::scope_manager::redeclare_text(name@)),
            r is Ok ==> final(self).spec_stack().value_of(name@) == Some(value),
            r is Ok ==> forall|other: Seq<char>| other != name@ ==> #[trigger] final(self).spec_stack().binding_of(other) == old(self).spec_stack().binding_of(other),
            r is Err ==> final(self).spec_stack().frames() == old(self).spec_stack().frames(),
            final(self).spec_console() == old(self).spec_console(),
            final(self).spec_last_result() == old(self).spec_last_result(),
    {
        self.stack.declare_variable(name, value)
    }

    /// What the program has written so far, piece by piece.
    pub fn output(&self) -> (o: &Vec<String>)
        ensures
            o@ == self.spec_output(),
    {
        &self.console.output
    }

    /// Runs the program's statements in order. A `break` or `return` left
    /// pending at the top level is an error.
    pub fn interpret(&mut self) -> (r: Result<(), Halt>)
        requires
            old(self).inv(),
        ensures
            old(self).keeps(final(self)),
            old(self).spec_program().statements@.len() == 0 ==> r is Ok && *final(self) == *old(self),
            old(self).spec_program().statements@.len() > 0 && r is Ok ==> !final(self).spec_breaking() && !final(self).spec_returning(),
            old(self).spec_fuel() > 0 && old(self).spec_program().statements@.len() > 0 && old(self).spec_program().statements@[0].value is Break
                ==> failed_with(r, with_position("Break called outside 'for' or 'switch'."@, old(self).spec_program().statements@[0].position)),
            old(self).spec_fuel() > 0 && !old(self).spec_breaking() && old(self).spec_program().statements@.len() > 0
                && old(self).spec_program().statements@[0].value == Statement::Return(None) ==> failed_with(
                r,
                with_position("Return called outside a function."@, old(self).spec_program().statements@[0].position),
            ),
            r is Ok ==> forall|k: int|
                0 <= k < old(self).spec_program().statements@.len() ==> !(#[trigger] old(self).spec_program().statements@[k].value is Break)
                    && !(old(self).spec_program().statements@[k].value is Return),
            all_plain(old(self).spec_program().statements@) && !old(self).spec_breaking() && !old(self).spec_returning() && r is Ok
                ==> statements_run(old(self).spec_program().statements@, old(self).spec_program().statements@.len(), old(self).run(), final(self).run()),
    {
        let program = self.program;
        self.visit_program(program)
    }

    fn append_position(&self, text: &String) -> (s: String)
        ensures
            s@ == with_position(text@, self.position),
    {
        append_position_text(text, self.position)
    }

    fn fail_here(&self, text: String) -> (h: Halt)
        ensures
            h matches Halt::Failed(e) && e.message@ == with_position(text@, self.position),
    {
        halt(self.append_position(&text))
    }

    /// Takes one step of the run's budget.
    fn tick(&mut self) -> (r: Result<(), Halt>)
        requires
            old(self).inv(),
        ensures
            old(self).keeps(final(self)),
            final(self).spec_position() == old(self).spec_position(),
            final(self).spec_console() == old(self).spec_console(),
            final(self).spec_stack() == old(self).spec_stack(),
            final(self).spec_last_result() == old(self).spec_last_result(),
            final(self).spec_arguments() == old(self).spec_arguments(),
            final(self).spec_breaking() == old(self).spec_breaking(),
            final(self).spec_returning() == old(self).spec_returning(),
            r is Ok <==> old(self).spec_fuel() > 0,
            r is Ok ==> final(self).spec_fuel() == old(self).spec_fuel() - 1,
            r is Err ==> failed_with(r, with_position("Execution step limit reached."@, old(self).spec_position())),
    {
        if self.fuel == 0 {
            return Err(self.fail_here(String::from_str("Execution step limit reached.")));
        }
        self.fuel = self.fuel - 1;
        Ok(())
    }

    /// Takes the value the last expression produced.
    fn read_last_result(&mut self) -> (r: Result<Value, Halt>)
        requires
            old(self).inv(),
        ensures
            old(self).keeps(final(self)),
            final(self).spec_position() == old(self).spec_position(),
            final(self).spec_console() == old(self).spec_console(),
            final(self).spec_fuel() == old(self).spec_fuel(),
            final(self).spec_stack() == old(self).spec_stack(),
            final(self).spec_last_result() is None,
            final(self).spec_breaking() == old(self).spec_breaking(),
            final(self).spec_returning() == old(self).spec_returning(),
            match old(self).spec_last_result() {
                Some(v) => r == Ok::<Value, Halt>(v),
                None => r matches Err(Halt::Failed(e)) && e.message@ == with_position(
                    "No value produced where it is needed."@,
                    old(self).spec_position(),
                ),
            },
    {
        match self.last_result.take() {
            Some(v) => Ok(v),
            None => Err(self.fail_here(String::from_str("No value produced where it is needed."))),
        }
    }

    fn condition_error(&self, value: &Value, place: &str) -> (h: Halt)
        ensures
            h matches Halt::Failed(e) && e.message@ == condition_text(place@, spec_value_type(*value), self.position),
    {
        let mut s = String::from_str("Condition in '");
        s.append(place);
        s.append("' has to evaluate to type 'bool' - got '");
        s.append(value.to_type().text());
        s.append("'.");
        self.fail_here(s)
    }

    /// Applies a binary operator to two values.
    pub fn apply_binary(&self, op: BinaryOp, a: Value, b: Value) -> (r: Result<Value, ComputationIssue>)
        ensures
            binary_outcome(op, a, b, r),
            float_binary_outcome(self.spec_floats(), op, a, b, r),
    {
        match op {
            BinaryOp::Alternative => ALU::alternative(a, b),
            BinaryOp::Concatenation => ALU::concatenation(a, b),
            BinaryOp::Greater => ALU::greater(a, b),
            BinaryOp::GreaterEqual => ALU::greater_or_equal(a, b),
            BinaryOp::Less => ALU::less(a, b),
            BinaryOp::LessEqual => ALU::less_or_equal(a, b),
            BinaryOp::Equal => ALU::equal(a, b),
            BinaryOp::NotEqual => ALU::not_equal(a, b),
            BinaryOp::Addition => ALU::add(self.floats, a, b),
            BinaryOp::Subtraction => ALU::subtract(self.floats, a, b),
            BinaryOp::Multiplication => ALU::multiplication(self.floats, a, b),
            BinaryOp::Division => ALU::division(self.floats, a, b),
        }
    }

    /// The value of a literal; a float literal is rounded to a double.
    pub fn visit_literal(&mut self, literal: &Literal) -> (r: Result<(), Halt>)
        requires
            old(self).inv(),
        ensures
            old(self).keeps(final(self)),
            final(self).spec_position() == old(self).spec_position(),
            final(self).spec_console() == old(self).spec_console(),
            final(self).spec_fuel() == old(self).spec_fuel(),
            final(self).spec_stack() == old(self).spec_stack(),
            final(self).spec_breaking() == old(self).spec_breaking(),
            final(self).spec_returning() == old(self).spec_returning(),
            r is Ok,
            match *literal {
                Literal::True => final(self).spec_last_result() == Some(Value::Bool(true)),
                Literal::False => final(self).spec_last_result() == Some(Value::Bool(false)),
                Literal::I64(i) => final(self).spec_last_result() == Some(Value::I64(i)),
                Literal::String(s) => final(self).spec_last_result() matches Some(Value::String(t)) && t@ == s@,
                Literal::F64(_) => final(self).spec_last_result() matches Some(Value::F64(_)),
            },
            final(self).spec_last_result() matches Some(v) && literal_value(old(self).spec_floats(), *literal, v),
    {
        let value = match literal {
            Literal::F64(f) => Value::F64(self.floats.from_literal(*f)),
            Literal::I64(i) => Value::I64(*i),
            Literal::String(s) => Value::String(s.clone()),
            Literal::False => Value::Bool(false),
            Literal::True => Value::Bool(true),
        };
        self.last_result = Some(value);
        Ok(())
    }

    /// The value of a variable of the innermost call.
    pub fn visit_variable(&mut self, variable: &String) -> (r: Result<(), Halt>)
        requires
            old(self).inv(),
        ensures
            old(self).keeps(final(self)),
            final(self).spec_position() == old(self).spec_position(),
            final(self).spec_console() == old(self).spec_console(),
            final(self).spec_fuel() == old(self).spec_fuel(),
            final(self).spec_stack() == old(self).spec_stack(),
            final(self).spec_breaking() == old(self).spec_breaking(),
            final(self).spec_returning() == old(self).spec_returning(),
            match old(self).spec_stack().value_of(variable@) {
                Some(v) => r is Ok && final(self).spec_last_result() == Some(v),
                None => failed_with(r, crate::scope_manager::not_declared_text(variable@)),
            },
    {
        match self.stack.get_variable(variable.as_str()) {
            Ok(v) => {
                self.last_result = Some(v);
                Ok(())
            },
            Err(e) => Err(Halt::Failed(InterpreterIssue { message: e.message })),
        }
    }
}


impl<'a, F: FloatArithmetic> Interpreter<'a, F> {
    /// Runs the statements of `program` in order.
    pub fn visit_program(&mut self, program: &Program) -> (r: Result<(), Halt>)
        requires
            old(self).inv(),
        ensures
            old(self).keeps(final(self)),
            program.statements@.len() == 0 ==> r is Ok && *final(self) == *old(self),
            program.statements@.len() > 0 && r is Ok ==> !final(self).spec_breaking() && !final(self).spec_returning(),
            old(self).spec_fuel() > 0 && program.statements@.len() > 0 && program.statements@[0].value is Break ==> failed_with(
                r,
                with_position("Break called outside 'for' or 'switch'."@, program.statements@[0].position),
            ),
            old(self).spec_fuel() > 0 && !old(self).spec_breaking() && program.statements@.len() > 0 && program.statements@[0].value
                == Statement::Return(None) ==> failed_with(r, with_position("Return called outside a function."@, program.statements@[0].position)),
            r is Ok ==> forall|k: int|
                0 <= k < program.statements@.len() ==> !(#[trigger] program.statements@[k].value is Break) && !(program.statements@[k].value is Return),
            all_plain(program.statements@) && !old(self).spec_breaking() && !old(self).spec_returning() && r is Ok ==> statements_run(
                program.statements@,
                program.statements@.len(),
                old(self).run(),
                final(self).run(),
            ),
    {
        let ghost is_plain = all_plain(program.statements@) && !old(self).spec_breaking() && !old(self).spec_returning();
        let mut i: usize = 0;
        while i < program.statements.len()
            invariant
                old(self).keeps(self),
                i <= program.statements@.len(),
                i == 0 ==> *self == *old(self),
                i > 0 ==> !self.spec_breaking() && !self.spec_returning(),
                i > 0 && old(self).spec_fuel() > 0 ==> !(program.statements@[0].value is Break) && program.statements@[0].value
                    != Statement::Return(None),
                forall|k: int| 0 <= k < i ==> !(#[trigger] program.statements@[k].value is Break) && !(program.statements@[k].value is Return),
                is_plain == (all_plain(program.statements@) && !old(self).spec_breaking() && !old(self).spec_returning()),
                is_plain ==> statements_run(program.statements@, i as nat, old(self).run(), self.run()),
            decreases program.statements@.len() - i,
        {
            let ghost before = *self;
            let ghost m: Run = self.run();
            let r = self.visit_statement(&program.statements[i]);
            r?;
            proof {
                if is_plain && !self.spec_breaking() {
                    assert(reached(m));
                    assert(statements_run(program.statements@, (i + 1) as nat, old(self).run(), self.run()));
                }
            }
            if self.is_breaking {
                return Err(self.fail_here(String::from_str("Break called outside 'for' or 'switch'.")));
            }
            if self.is_returning {
                return Err(self.fail_here(String::from_str("Return called outside a function.")));
            }
            i = i + 1;
        }
        Ok(())
    }

    /// Evaluates an expression; its value is left as the last result.
    #[verifier::spinoff_prover]
    #[verifier::rlimit(60)]
    pub fn visit_expression(&mut self, expression: &Node<Expression>) -> (r: Result<(), Halt>)
        requires
            old(self).inv(),
        ensures
            old(self).keeps(final(self)),
            call_free(*expression) ==> final(self).spec_stack() == old(self).spec_stack() && final(self).spec_console()
                == old(self).spec_console() && final(self).spec_breaking() == old(self).spec_breaking() && final(self).spec_returning()
                == old(self).spec_returning(),
            call_free(*expression) && r is Ok ==> final(self).spec_last_result() is Some
                && final(self).spec_position() == last_position(*expression)
                && final(self).spec_fuel() + expression_size(*expression) == old(self).spec_fuel(),
            call_free(*expression) && old(self).spec_fuel() >= expression_size(*expression) ==> evaluates(
                *expression,
                old(self).spec_stack(),
                run_outcome(r, final(self).spec_last_result()),
            ),
            r is Ok ==> same_scopes(old(self).spec_stack(), final(self).spec_stack()),
            expression.value matches Expression::Literal(l) ==> (r is Ok ==> (final(self).spec_last_result() matches Some(v) && literal_value(
                old(self).spec_floats(),
                l,
                v,
            ))),
        decreases old(self).spec_fuel(), 0nat,
    {
        self.tick()?;
        self.position = expression.position;
        let ghost st = old(self).spec_stack();
        let ghost cf = call_free(*expression) && old(self).spec_fuel() >= expression_size(*expression);
        match &expression.value {
            Expression::Casting { value, to_type } => {
                let r1 = self.visit_expression(value);
                proof {
                    if cf {
                        assert(step(run_outcome(r1, self.spec_last_result())) && evaluates(**value, st, run_outcome(r1, self.spec_last_result())));
                    }
                }
                if let Err(h) = r1 {
                    proof {
                        if cf {
                            let ghost failed = run_outcome(Err(h), self.spec_last_result());
                            assert(step(failed) && evaluates(**value, st, failed));
                        }
                    }
                    return Err(h);
                }
                let v = self.read_last_result()?;
                let ghost va = v;
                match ALU::cast_to_type(self.floats, v, to_type.value) {
                    Ok(c) => {
                        proof {
                            if cf {
                                assert(cast_outcome(va, to_type.value, Ok::<Value, ComputationIssue>(c)));
                                assert(step(Ok::<Value, Seq<char>>(va)) && evaluates(**value, st, Ok::<Value, Seq<char>>(va)));
                            }
                        }
                        self.last_result = Some(c);
                    },
                    Err(e) => {
                        proof {
                            if cf {
                                assert(cast_outcome(va, to_type.value, Err::<Value, ComputationIssue>(e)));
                                assert(step(Ok::<Value, Seq<char>>(va)) && evaluates(**value, st, Ok::<Value, Seq<char>>(va)));
                            }
                        }
                        return Err(self.fail_here(e.message));
                    },
                }
            },
            Expression::BooleanNegation(value) => {
                let r1 = self.visit_expression(value);
                proof {
                    if cf {
                        assert(step(run_outcome(r1, self.spec_last_result())) && evaluates(**value, st, run_outcome(r1, self.spec_last_result())));
                    }
                }
                if let Err(h) = r1 {
                    return Err(h);
                }
                let v = self.read_last_result()?;
                let ghost va = v;
                match ALU::boolean_negate(v) {
                    Ok(c) => {
                        proof {
                            if cf {
                                assert(boolean_negate_outcome(va, Ok::<Value, ComputationIssue>(c)));
                                assert(step(Ok::<Value, Seq<char>>(va)) && evaluates(**value, st, Ok::<Value, Seq<char>>(va)));
                            }
                        }
                        self.last_result = Some(c);
                    },
                    Err(e) => {
                        proof {
                            if cf {
                                assert(step(Ok::<Value, Seq<char>>(va)) && evaluates(**value, st, Ok::<Value, Seq<char>>(va)));
                            }
                        }
                        return Err(self.fail_here(e.message));
                    },
                }
            },
            Expression::ArithmeticNegation(value) => {
                let r1 = self.visit_expression(value);
                proof {
                    if cf {
                        assert(step(run_outcome(r1, self.spec_last_result())) && evaluates(**value, st, run_outcome(r1, self.spec_last_result())));
                    }
                }
                if let Err(h) = r1 {
                    return Err(h);
                }
                let v = self.read_last_result()?;
                let ghost va = v;
                match ALU::arithmetic_negate(v) {
                    Ok(c) => {
                        proof {
                            if cf {
                                assert(arithmetic_negate_outcome(va, Ok::<Value, ComputationIssue>(c)));
                                assert(step(Ok::<Value, Seq<char>>(va)) && evaluates(**value, st, Ok::<Value, Seq<char>>(va)));
                            }
                        }
                        self.last_result = Some(c);
                    },
                    Err(e) => {
                        proof {
                            if cf {
                                assert(step(Ok::<Value, Seq<char>>(va)) && evaluates(**value, st, Ok::<Value, Seq<char>>(va)));
                            }
                        }
                        return Err(self.fail_here(e.message));
                    },
                }
            },
            Expression::Alternative(l, r) | Expression::Concatenation(l, r) | Expression::Greater(l, r)
            | Expression::GreaterEqual(l, r) | Expression::Less(l, r) | Expression::LessEqual(l, r)
            | Expression::Equal(l, r) | Expression::NotEqual(l, r) | Expression::Addition(l, r)
            | Expression::Subtraction(l, r) | Expression::Multiplication(l, r) | Expression::Division(l, r) => {
                let op = match &expression.value {
                    Expression::Alternative(_, _) => BinaryOp::Alternative,
                    Expression::Concatenation(_, _) => BinaryOp::Concatenation,
                    Expression::Greater(_, _) => BinaryOp::Greater,
                    Expression::GreaterEqual(_, _) => BinaryOp::GreaterEqual,
                    Expression::Less(_, _) => BinaryOp::Less,
                    Expression::LessEqual(_, _) => BinaryOp::LessEqual,
                    Expression::Equal(_, _) => BinaryOp::Equal,
                    Expression::NotEqual(_, _) => BinaryOp::NotEqual,
                    Expression::Addition(_, _) => BinaryOp::Addition,
                    Expression::Subtraction(_, _) => BinaryOp::Subtraction,
                    Expression::Multiplication(_, _) => BinaryOp::Multiplication,
                    _ => BinaryOp::Division,
                };
                proof {
                    assert(op == binary_op_of(expression.value));
                    assert(call_free(*expression) == (call_free(**l) && call_free(**r)));
                    assert(expression_size(*expression) == 1 + expression_size(**l) + expression_size(**r));
                    assert(last_position(*expression) == last_position(**r));
                }
                let r1 = self.visit_expression(l);
                proof {
                    if cf {
                        assert(step(run_outcome(r1, self.spec_last_result())) && evaluates(**l, st, run_outcome(r1, self.spec_last_result())));
                    }
                }
                if let Err(h) = r1 {
                    proof {
                        if cf {
                            assert(binary_evaluates(op, run_outcome(r1, self.spec_last_result()), **r, st, last_position(*expression), run_outcome(r1, self.spec_last_result())));
                        }
                    }
                    return Err(h);
                }
                let a = self.read_last_result()?;
                let ghost va = a;
                let r2 = self.visit_expression(r);
                proof {
                    if cf {
                        assert(step(run_outcome(r2, self.spec_last_result())) && evaluates(**r, st, run_outcome(r2, self.spec_last_result())));
                    }
                }
                if let Err(h) = r2 {
                    proof {
                        if cf {
                            assert(binary_evaluates(op, Ok::<Value, Seq<char>>(va), **r, st, last_position(*expression), run_outcome(r2, self.spec_last_result())));
                        }
                    }
                    return Err(h);
                }
                let b = self.read_last_result()?;
                let ghost vb = b;
                match self.apply_binary(op, a, b) {
                    Ok(c) => {
                        proof {
                            if cf {
                                assert(binary_outcome(op, va, vb, Ok::<Value, ComputationIssue>(c)));
                                assert(step(Ok::<Value, Seq<char>>(vb)) && evaluates(**r, st, Ok::<Value, Seq<char>>(vb)));
                                assert(binary_evaluates(op, Ok::<Value, Seq<char>>(va), **r, st, last_position(*expression), Ok::<Value, Seq<char>>(c)));
                                assert(step(Ok::<Value, Seq<char>>(va)) && evaluates(**l, st, Ok::<Value, Seq<char>>(va)));
                            }
                        }
                        self.last_result = Some(c);
                    },
                    Err(e) => {
                        proof {
                            if cf {
                                assert(step(Ok::<Value, Seq<char>>(vb)) && evaluates(**r, st, Ok::<Value, Seq<char>>(vb)));
                                assert(binary_evaluates(op, Ok::<Value, Seq<char>>(va), **r, st, last_position(*expression), lift(Err::<Value, ComputationIssue>(e), last_position(*expression))));
                                assert(step(Ok::<Value, Seq<char>>(va)) && evaluates(**l, st, Ok::<Value, Seq<char>>(va)));
                            }
                        }
                        return Err(self.fail_here(e.message));
                    },
                }
            },
            Expression::Literal(literal) => {
                self.visit_literal(literal)?;
            },
            Expression::Variable(variable) => {
                self.visit_variable(variable)?;
            },
            Expression::FunctionCall { identifier, arguments } => {
                self.call_function(identifier, arguments)?;
            },
        }
        Ok(())
    }
}


impl<'a, F: FloatArithmetic> Interpreter<'a, F> {
    /// Runs a block in a scope of its own, stopping at a pending `break` or
    /// `return`.
    pub fn visit_block(&mut self, statements: &Vec<Node<Statement>>) -> (r: Result<(), Halt>)
        requires
            old(self).inv(),
        ensures
            old(self).keeps(final(self)),
            r is Ok ==> same_scopes(old(self).spec_stack(), final(self).spec_stack()),
            r is Ok ==> forall|n: Seq<char>| #[trigger] final(self).spec_stack().binding_of(n) == old(self).spec_stack().binding_of(n),
            old(self).spec_fuel() == 0 ==> failed_with(r, with_position("Execution step limit reached."@, old(self).spec_position())),
            old(self).spec_fuel() > 0 && statements@.len() == 0 ==> {
                &&& r is Ok
                &&& final(self).spec_fuel() + 1 == old(self).spec_fuel()
                &&& final(self).spec_console() == old(self).spec_console()
                &&& final(self).spec_last_result() == old(self).spec_last_result()
            },
            all_plain(statements@) && !old(self).spec_returning() && r is Ok ==> block_runs(statements@, old(self).run(), final(self).run())
                && !final(self).spec_returning(),
        decreases old(self).spec_fuel(), 0nat,
    {
        self.tick()?;
        let ghost s0 = self.stack;
        self.stack.push_scope();
        let ghost s1 = self.stack;
        let ghost start: Run = (s1, self.is_breaking, self.spec_fuel());
        let ghost is_plain = all_plain(statements@) && !old(self).spec_returning();
        assert(opens(s0, s1));
        proof {
            Stack::lemma_scopes_compose(s1, s1, s1);
        }
        let mut i: usize = 0;
        while i < statements.len() && !self.is_breaking && !self.is_returning
            invariant
                old(self).keeps(self),
                self.spec_fuel() < old(self).spec_fuel(),
                i <= statements@.len(),
                s0 == old(self).spec_stack(),
                s0.frame_count() >= 1,
                s1.frame_count() == s0.frame_count(),
                s1.frames().drop_last() == s0.frames().drop_last(),
                s1.top().scope_list().drop_last() == s0.top().scope_list(),
                s1.top().scope_list().len() == s0.top().scope_list().len() + 1,
                same_outer_scopes(s1, self.stack),
                i == 0 ==> self.spec_fuel() + 1 == old(self).spec_fuel() && self.spec_console() == old(self).spec_console()
                    && self.spec_last_result() == old(self).spec_last_result(),
                start == (s1, old(self).spec_breaking(), (old(self).spec_fuel() - 1) as nat),
                is_plain == (all_plain(statements@) && !old(self).spec_returning()),
                is_plain ==> statements_run(statements@, i as nat, start, self.run()) && !self.spec_returning(),
            decreases statements@.len() - i,
        {
            let ghost before = self.stack;
            let ghost m = self.run();
            self.visit_statement(&statements[i])?;
            proof {
                Stack::lemma_scopes_compose(s1, before, self.stack);
                if is_plain {
                    assert(reached(m));
                    assert(statements_run(statements@, (i + 1) as nat, start, self.run()));
                }
            }
            i = i + 1;
        }
        let ghost s2 = self.stack;
        let ghost mid = self.run();
        proof {
            if is_plain && i < statements@.len() {
                lemma_statements_stop(statements@, i as nat, statements@.len(), start, mid);
            }
        }
        self.stack.pop_scope();
        proof {
            Stack::lemma_scope_closed(s0, s1, s2, self.stack);
            if is_plain {
                assert(closes(s2, self.stack));
                assert(reached(mid));
                assert(statements_run(statements@, statements@.len(), start, mid));
                assert(opens(old(self).run().0, s1));
                assert(start == (s1, old(self).run().1, (old(self).run().2 - 1) as nat));
                assert(closes(mid.0, self.run().0));
                assert(self.run().1 == mid.1 && self.run().2 == mid.2);
                assert(old(self).run().2 > 0);
                assert(block_runs(statements@, old(self).run(), self.run()));
            }
        }
        Ok(())
    }

    /// Runs the block of a switch case whose condition holds.
    pub fn visit_switch_case(&mut self, switch_case: &Node<SwitchCase>) -> (r: Result<(), Halt>)
        requires
            old(self).inv(),
        ensures
            old(self).keeps(final(self)),
            r is Ok ==> same_scopes(old(self).spec_stack(), final(self).spec_stack()),
            call_free(switch_case.value.condition) && old(self).spec_fuel() > expression_size(switch_case.value.condition) && r is Ok
                ==> exists|b: bool| #[trigger] evaluates(switch_case.value.condition, old(self).spec_stack(), Ok(Value::Bool(b)))
                && (!b ==> final(self).spec_stack() == old(self).spec_stack() && final(self).spec_console() == old(self).spec_console()),
            call_free(switch_case.value.condition) && old(self).spec_fuel() > expression_size(switch_case.value.condition) && (forall|
                x: Result<Value, Seq<char>>,
            | #[trigger] evaluates(switch_case.value.condition, old(self).spec_stack(), x) ==> x == Ok::<Value, Seq<char>>(Value::Bool(false)))
                ==> {
                &&& r is Ok
                &&& final(self).spec_stack() == old(self).spec_stack()
                &&& final(self).spec_console() == old(self).spec_console()
            },
            call_free(switch_case.value.condition) && all_plain(switch_case.value.block.value.0@) && !old(self).spec_returning() && r is Ok
                ==> case_runs(*switch_case, old(self).run(), final(self).run()) && !final(self).spec_returning(),
        decreases old(self).spec_fuel(), 0nat,
    {
        self.tick()?;
        let r1 = self.visit_expression(&switch_case.value.condition);
        let ghost last = self.spec_last_result();
        r1?;
        let value = self.read_last_result()?;
        let holds = match value.try_into_bool() {
            Ok(b) => b,
            Err(_) => {
                return Err(self.condition_error(&value, "switch case"));
            },
        };
        let ghost m: Run = self.run();
        proof {
            if call_free(switch_case.value.condition) {
                assert(run_outcome(r1, last) == Ok::<Value, Seq<char>>(Value::Bool(holds)));
                assert(evaluates(switch_case.value.condition, old(self).run().0, Ok(Value::Bool(holds))));
                assert(m == (
                    old(self).run().0,
                    old(self).run().1,
                    (old(self).run().2 - 1 - expression_size(switch_case.value.condition)) as nat,
                ));
            }
        }
        if holds {
            self.visit_block(&switch_case.value.block.value.0)?;
        }
        Ok(())
    }

    /// Evaluates a switch expression that has an alias and declares the
    /// alias with its value; one without an alias is not evaluated.
    pub fn visit_switch_expression(&mut self, switch_expression: &Node<SwitchExpression>) -> (r: Result<(), Halt>)
        requires
            old(self).inv(),
        ensures
            old(self).keeps(final(self)),
            r is Ok ==> same_outer_scopes(old(self).spec_stack(), final(self).spec_stack()),
            switch_expression.value.alias is None && r is Ok ==> final(self).spec_stack() == old(self).spec_stack()
                && final(self).spec_console() == old(self).spec_console(),
            switch_expression.value.alias is None ==> (r is Ok <==> old(self).spec_fuel() > 0),
            switch_expression.value.alias matches Some(alias) ==> (call_free(switch_expression.value.expression) && old(self).spec_fuel()
                > expression_size(switch_expression.value.expression) && (forall|x: Result<Value, Seq<char>>|
                #[trigger] evaluates(switch_expression.value.expression, old(self).spec_stack(), x) ==> x is Ok) ==> {
                &&& old(self).spec_stack().binding_of(alias.value@) is None && old(self).spec_stack().top().scope_count() > 0 <==> r is Ok
                &&& old(self).spec_stack().binding_of(alias.value@) is Some ==> failed_with(
                    r,
                    with_position(crate::scope_manager::redeclare_text(alias.value@), last_position(switch_expression.value.expression)),
                )
            }),
            switch_expression.value.alias matches Some(alias) ==> (call_free(switch_expression.value.expression)
                && old(self).spec_fuel() > expression_size(switch_expression.value.expression) && r is Ok ==> (
            final(self).spec_stack().value_of(alias.value@) matches Some(v) && evaluates(
                switch_expression.value.expression,
                old(self).spec_stack(),
                Ok(v),
            ))),
            call_free(switch_expression.value.expression) && r is Ok ==> expression_step(*switch_expression, old(self).run(), final(self).run())
                && final(self).spec_returning() == old(self).spec_returning(),
        decreases old(self).spec_fuel(), 0nat,
    {
        self.tick()?;
        if let Some(alias) = &switch_expression.value.alias {
            let ghost s0 = self.stack;
            let r1 = self.visit_expression(&switch_expression.value.expression);
            let ghost last = self.spec_last_result();
            r1?;
            let value = self.read_last_result()?;
            if let Err(e) = self.stack.declare_variable(alias.value.as_str(), value) {
                return Err(self.fail_here(e.message));
            }
            proof {
                if call_free(switch_expression.value.expression) {
                    assert(run_outcome(r1, last) == Ok::<Value, Seq<char>>(value));
                    assert(evaluates(switch_expression.value.expression, old(self).run().0, Ok(value)));
                    assert(declares(old(self).run().0, alias.value@, value, self.run().0));
                }
            }
        }
        Ok(())
    }

    /// Runs a statement.
    #[verifier::loop_isolation(false)]
    #[verifier::spinoff_prover]
    #[verifier::rlimit(100)]
    pub fn visit_statement(&mut self, statement: &Node<Statement>) -> (r: Result<(), Halt>)
        requires
            old(self).inv(),
        ensures
            old(self).keeps(final(self)),
            r is Ok ==> same_outer_scopes(old(self).spec_stack(), final(self).spec_stack()),
            r is Ok && !(statement.value is Declaration) ==> same_scopes(old(self).spec_stack(), final(self).spec_stack()),
            statement.value matches Statement::Declaration { var_type, identifier, value: None } ==> (r is Ok
                ==> (final(self).spec_stack().value_of(identifier.value@) matches Some(v) && is_default_value(var_type.value, v))),
            old(self).spec_fuel() > 0 ==> (statement.value matches Statement::Declaration { var_type, value: None, .. }
                && var_type.value == Type::Void ==> failed_with(r, "Cannot create default value for type 'void'."@)),
            statement.value matches Statement::Declaration { var_type, identifier, value: Some(e) } ==> (call_free(e)
                && old(self).spec_fuel() > expression_size(e) && r is Ok ==> (final(self).spec_stack().value_of(identifier.value@) matches Some(v)
                && evaluates(e, old(self).spec_stack(), Ok(v)) && spec_value_type(v) == var_type.value)),
            statement.value matches Statement::Assignment { identifier, value: e } ==> (call_free(e)
                && old(self).spec_fuel() > expression_size(e) && r is Ok ==> (final(self).spec_stack().value_of(identifier.value@) matches Some(v)
                && evaluates(e, old(self).spec_stack(), Ok(v)))),
            statement.value matches Statement::Conditional { condition, else_block, .. } ==> (call_free(condition)
                && old(self).spec_fuel() > expression_size(condition) && r is Ok ==> exists|b: bool|
                #[trigger] evaluates(condition, old(self).spec_stack(), Ok(Value::Bool(b))) && (!b && else_block is None
                ==> final(self).spec_stack() == old(self).spec_stack() && final(self).spec_console() == old(self).spec_console())),
            old(self).spec_fuel() > 0 && statement.value is Break ==> r is Ok && final(self).spec_breaking() && final(self).spec_position()
                == statement.position,
            statement.value matches Statement::Return(None) ==> (r is Ok ==> (final(self).spec_returning()
                && final(self).spec_last_result() is None)),
            statement.value is Return && r is Ok ==> final(self).spec_returning(),
            old(self).spec_fuel() > 0 && statement.value == Statement::Return(None) ==> r is Ok && final(self).spec_position()
                == statement.position && final(self).spec_breaking() == old(self).spec_breaking(),
            old(self).spec_fuel() == 0 ==> failed_with(r, with_position("Execution step limit reached."@, old(self).spec_position())),
            statement.value matches Statement::Declaration { value, .. } ==> ((value matches Some(e) ==> call_free(e)) && r is Err ==> forall|
                n: Seq<char>,
            | #[trigger] final(self).spec_stack().binding_of(n) == old(self).spec_stack().binding_of(n)),
            statement.value matches Statement::Declaration { var_type, identifier, value: None } ==> (old(self).spec_fuel() > 0
                && var_type.value != Type::Void ==> {
                &&& (old(self).spec_stack().binding_of(identifier.value@) is None && old(self).spec_stack().top().scope_count() > 0 <==> r is Ok)
                &&& old(self).spec_stack().binding_of(identifier.value@) is Some ==> failed_with(
                    r,
                    with_position(crate::scope_manager::redeclare_text(identifier.value@), statement.position),
                )
            }),
            statement.value matches Statement::Declaration { var_type, identifier, value: Some(e) } ==> (call_free(e)
                && old(self).spec_fuel() > expression_size(e) ==> forall|t: Type| #[trigger] evaluates_to_type(e, old(self).spec_stack(), t) ==> {
                &&& t != var_type.value ==> failed_with(r, with_position(declare_type_text(t, identifier.value@, var_type.value), last_position(e)))
                &&& t == var_type.value ==> (old(self).spec_stack().binding_of(identifier.value@) is None
                    && old(self).spec_stack().top().scope_count() > 0 <==> r is Ok)
                &&& t == var_type.value && old(self).spec_stack().binding_of(identifier.value@) is Some ==> failed_with(
                    r,
                    with_position(crate::scope_manager::redeclare_text(identifier.value@), last_position(e)),
                )
            }),
            statement.value matches Statement::Assignment { identifier, value: e } ==> (call_free(e) && old(self).spec_fuel()
                > expression_size(e) ==> forall|t: Type| #[trigger] evaluates_to_type(e, old(self).spec_stack(), t) ==> {
                &&& old(self).spec_stack().reference_of(identifier.value@) is None ==> failed_with(
                    r,
                    with_position(crate::scope_manager::not_declared_text(identifier.value@), last_position(e)),
                )
                &&& old(self).spec_stack().reference_of(identifier.value@) matches Some((f, i)) ==> {
                    &&& (t == spec_value_type(old(self).spec_stack().cell(f, i)) <==> r is Ok)
                    &&& t != spec_value_type(old(self).spec_stack().cell(f, i)) ==> failed_with(
                        r,
                        with_position(
                            assign_type_text(identifier.value@, t, spec_value_type(old(self).spec_stack().cell(f, i))),
                            last_position(e),
                        ),
                    )
                }
            }),
            statement.value matches Statement::Conditional { condition, if_block, else_block } ==> (call_free(condition) && old(self).spec_fuel()
                > expression_size(condition) + 1 && evaluates_to_type(condition, old(self).spec_stack(), Type::Bool) && if_block.value.0@.len()
                == 0 && (else_block matches Some(b) ==> b.value.0@.len() == 0) ==> r is Ok && final(self).spec_console() == old(self).spec_console()),
            statement.value matches Statement::ForLoop { declaration: None, condition, .. } ==> (call_free(condition)
                && old(self).spec_fuel() > expression_size(condition) ==> {
                &&& forall|t: Type| #[trigger] evaluates_to_type(condition, old(self).spec_stack(), t) && t != Type::Bool ==> failed_with(
                    r,
                    condition_text("for statement"@, t, last_position(condition)),
                )
                &&& (forall|x: Result<Value, Seq<char>>| #[trigger] evaluates(condition, old(self).spec_stack(), x) ==> x == Ok::<
                    Value,
                    Seq<char>,
                >(Value::Bool(false))) ==> r is Ok && final(self).spec_console() == old(self).spec_console()
            }),
            statement.value matches Statement::Conditional { condition, .. } ==> (call_free(condition) && old(self).spec_fuel()
                > expression_size(condition) ==> forall|t: Type| #[trigger] evaluates_to_type(condition, old(self).spec_stack(), t) && t
                != Type::Bool ==> failed_with(r, condition_text("if statement"@, t, last_position(condition)))),
            statement.value matches Statement::Return(Some(e)) ==> (call_free(e) && old(self).spec_fuel() > expression_size(e)
                && r is Ok ==> final(self).spec_returning() && (final(self).spec_last_result() matches Some(v)
                && evaluates(e, old(self).spec_stack(), Ok(v)))),
            plain(*statement) && !old(self).spec_returning() && r is Ok ==> runs(*statement, old(self).run(), final(self).run())
                && !final(self).spec_returning(),
        decreases old(self).spec_fuel(), 0nat,
    {
        self.tick()?;
        self.position = statement.position;
        let ghost s0 = self.stack;
        proof {
            Stack::lemma_scopes_compose(s0, s0, s0);
        }
        match &statement.value {
            Statement::FunctionCall { identifier, arguments } => {
                self.call_function(identifier, arguments)?;
                proof {
                    Stack::lemma_scopes_compose(s0, self.stack, self.stack);
                }
            },
            Statement::Declaration { var_type, identifier, value } => {
                let ghost mut outcome: Result<Value, Seq<char>> = Err(Seq::empty());
                let computed = match value {
                    Some(v) => {
                        let r1 = self.visit_expression(v);
                        proof {
                            outcome = run_outcome(r1, self.spec_last_result());
                        }
                        r1?;
                        match self.read_last_result() {
                            Ok(c) => c,
                            Err(_) => {
                                let mut s = String::from_str("Cannot declare variable '");
                                s.append(identifier.value.as_str());
                                s.append("' with no value.");
                                return Err(self.fail_here(s));
                            },
                        }
                    },
                    None => match Value::default_value(var_type.value) {
                        Ok(d) => d,
                        Err(e) => {
                            return Err(halt(e.message));
                        },
                    },
                };
                if computed.to_type() != var_type.value {
                    let mut s = String::from_str("Cannot assign value of type '");
                    s.append(computed.to_type().text());
                    s.append("' to variable '");
                    s.append(identifier.value.as_str());
                    s.append("' of type '");
                    s.append(var_type.value.text());
                    s.append("'.");
                    return Err(self.fail_here(s));
                }
                let ghost before = self.stack;
                if let Err(e) = self.stack.declare_variable(identifier.value.as_str(), computed) {
                    return Err(self.fail_here(e.message));
                }
                proof {
                    Stack::lemma_scopes_compose(s0, before, self.stack);
                    if plain(*statement) {
                        assert(declares(old(self).run().0, identifier.value@, computed, self.run().0));
                        assert(spec_value_type(computed) == var_type.value);
                        if let Some(e) = value {
                            assert(outcome == Ok::<Value, Seq<char>>(computed));
                            assert(evaluates(*e, old(self).run().0, Ok(computed)));
                        }
                    }
                }
            },
            Statement::Assignment { identifier, value } => {
                let r1 = self.visit_expression(value);
                let ghost outcome = run_outcome(r1, self.spec_last_result());
                r1?;
                let computed = match self.read_last_result() {
                    Ok(c) => c,
                    Err(_) => {
                        let mut s = String::from_str("Cannot assign no value to variable '");
                        s.append(identifier.value.as_str());
                        s.append("'.");
                        return Err(self.fail_here(s));
                    },
                };
                let ghost before = self.stack;
                if let Err(e) = self.stack.assign_variable(identifier.value.as_str(), computed) {
                    return Err(self.fail_here(e.message));
                }
                proof {
                    Stack::lemma_scopes_compose(s0, before, self.stack);
                    if plain(*statement) {
                        assert(assigns(old(self).run().0, identifier.value@, computed, self.run().0));
                        assert(outcome == Ok::<Value, Seq<char>>(computed));
                        assert(evaluates(*value, old(self).run().0, Ok(computed)));
                    }
                }
            },
            Statement::Conditional { condition, if_block, else_block } => {
                let r1 = self.visit_expression(condition);
                let ghost outcome = run_outcome(r1, self.spec_last_result());
                r1?;
                let value = self.read_last_result()?;
                let holds = match value.try_into_bool() {
                    Ok(b) => b,
                    Err(_) => {
                        return Err(self.condition_error(&value, "if statement"));
                    },
                };
                let ghost before = self.stack;
                let ghost m: Run = self.run();
                proof {
                    if plain(*statement) {
                        assert(outcome == Ok::<Value, Seq<char>>(Value::Bool(holds)));
                        assert(evaluates(*condition, old(self).run().0, Ok(Value::Bool(holds))));
                        assert(m == (old(self).run().0, old(self).run().1, (old(self).run().2 - 1 - expression_size(*condition)) as nat));
                    }
                }
                if holds {
                    self.visit_block(&if_block.value.0)?;
                } else if let Some(else_blk) = else_block {
                    self.visit_block(&else_blk.value.0)?;
                }
                proof {
                    Stack::lemma_scopes_compose(s0, before, self.stack);
                    Stack::lemma_scopes_compose(s0, self.stack, self.stack);
                }
            },
            Statement::ForLoop { declaration, condition, assignment, block } => {
                let ghost a: Run = self.run();
                self.run_for_loop(declaration, condition, assignment, &block.value.0)?;
                proof {
                    Stack::lemma_scopes_compose(s0, self.stack, self.stack);
                    if plain(*statement) && !old(self).spec_returning() {
                        assert(plain_for(*declaration, *condition, *assignment, block.value.0@));
                        assert(a == (old(self).run().0, old(self).run().1, (old(self).run().2 - 1) as nat));
                    }
                }
            },
            Statement::Switch { expressions, cases } => {
                let ghost a: Run = self.run();
                self.run_switch(expressions, cases)?;
                proof {
                    Stack::lemma_scopes_compose(s0, self.stack, self.stack);
                    if plain(*statement) && !old(self).spec_returning() {
                        assert(plain_switch(expressions@, cases@));
                        assert(a == (old(self).run().0, old(self).run().1, (old(self).run().2 - 1) as nat));
                    }
                }
            },
            Statement::Return(value) => {
                let mut returned = None;
                if let Some(v) = value {
                    self.visit_expression(v)?;
                    returned = Some(self.read_last_result()?);
                }
                proof {
                    Stack::lemma_scopes_compose(s0, self.stack, self.stack);
                }
                self.is_returning = true;
                self.last_result = returned;
            },
            Statement::Break => {
                self.is_breaking = true;
            },
        }
        Ok(())
    }
}


impl<'a, F: FloatArithmetic> Interpreter<'a, F> {
    /// Runs a `for` loop in a scope of its own: its declaration, then, while
    /// its condition holds, its block and its assignment. A `break` in the
    /// block ends the loop and is consumed.
    #[verifier::loop_isolation(false)]
    #[verifier::spinoff_prover]
    #[verifier::rlimit(100)]
    fn run_for_loop(
        &mut self,
        declaration: &Option<Box<Node<Statement>>>,
        condition: &Node<Expression>,
        assignment: &Option<Box<Node<Statement>>>,
        block: &Vec<Node<Statement>>,
    ) -> (r: Result<(), Halt>)
        requires
            old(self).inv(),
        ensures
            old(self).keeps(final(self)),
            r is Ok ==> same_scopes(old(self).spec_stack(), final(self).spec_stack()),
            declaration is None ==> (call_free(*condition) && old(self).spec_fuel() >= expression_size(*condition) ==> {
                &&& forall|t: Type| #[trigger] evaluates_to_type(*condition, old(self).spec_stack(), t) && t != Type::Bool ==> failed_with(
                    r,
                    condition_text("for statement"@, t, last_position(*condition)),
                )
                &&& (forall|x: Result<Value, Seq<char>>| #[trigger] evaluates(*condition, old(self).spec_stack(), x) ==> x == Ok::<
                    Value,
                    Seq<char>,
                >(Value::Bool(false))) ==> r is Ok && final(self).spec_console() == old(self).spec_console()
            }),
            plain_for(*declaration, *condition, *assignment, block@) && !old(self).spec_returning() && r is Ok ==> for_runs(
                *declaration,
                *condition,
                *assignment,
                block@,
                old(self).run(),
                final(self).run(),
            ) && !final(self).spec_returning(),
        decreases old(self).spec_fuel(), 1nat,
    {
        let ghost s0 = self.stack;
        let ghost a: Run = self.run();
        let ghost is_plain = plain_for(*declaration, *condition, *assignment, block@) && !old(self).spec_returning();
        self.stack.push_scope();
        let ghost s1 = self.stack;
        proof {
            assert(opens(s0, s1));
            Stack::lemma_scopes_compose(s1, s1, s1);
            if declaration is None {
                Stack::lemma_same_values(s0, s1);
                assert forall|x: Result<Value, Seq<char>>| #[trigger] evaluates(*condition, s1, x) == evaluates(*condition, s0, x) by {
                    lemma_evaluates_by_values(*condition, s1, s0, x);
                }
            }
        }
        if let Some(decl) = declaration {
            self.visit_statement(decl)?;
        }
        let ghost m0: Run = self.run();
        let ghost before = self.stack;
        self.visit_expression(condition)?;
        proof {
            Stack::lemma_scopes_compose(s1, before, self.stack);
        }
        let value = self.read_last_result()?;
        let mut holds = match value.try_into_bool() {
            Ok(b) => b,
            Err(_) => {
                return Err(self.condition_error(&value, "for statement"));
            },
        };
        let ghost mut cur: Run = m0;
        let ghost entered = holds;
        let ghost before_loop = *self;
        while holds
            invariant
                !entered ==> !holds && *self == before_loop,
                old(self).keeps(self),
                self.spec_fuel() <= m0.2,
                m0.2 <= a.2,
                s0.frame_count() >= 1,
                s1.frame_count() == s0.frame_count(),
                s1.frames().drop_last() == s0.frames().drop_last(),
                s1.top().scope_list().drop_last() == s0.top().scope_list(),
                s1.top().scope_list().len() == s0.top().scope_list().len() + 1,
                same_outer_scopes(s1, self.stack),
                is_plain ==> evaluates(*condition, cur.0, Ok(Value::Bool(holds))) && cur.2 >= expression_size(*condition) && self.run() == (
                    cur.0,
                    cur.1,
                    (cur.2 - expression_size(*condition)) as nat,
                ) && !self.spec_returning(),
                is_plain ==> forall|b: Run|
                    #[trigger] loop_runs(*condition, *assignment, block@, cur, b) ==> loop_runs(*condition, *assignment, block@, m0, b),
            decreases self.spec_fuel(),
        {
            self.tick()?;
            let ghost b1 = self.stack;
            self.visit_block(block)?;
            let ghost m1: Run = self.run();
            proof {
                Stack::lemma_scopes_compose(s1, b1, self.stack);
            }
            if self.is_returning {
                break;
            }
            if self.is_breaking {
                self.is_breaking = false;
                proof {
                    if is_plain {
                        assert(reached(m1));
                        assert(loop_runs(*condition, *assignment, block@, cur, self.run()));
                    }
                }
                break;
            }
            let ghost b2 = self.stack;
            if let Some(assign) = assignment {
                self.visit_statement(assign)?;
            }
            let ghost m2: Run = self.run();
            proof {
                Stack::lemma_scopes_compose(s1, b2, self.stack);
                Stack::lemma_scopes_compose(s1, self.stack, self.stack);
            }
            let ghost b3 = self.stack;
            self.visit_expression(condition)?;
            proof {
                Stack::lemma_scopes_compose(s1, b3, self.stack);
            }
            let value = self.read_last_result()?;
            holds = match value.try_into_bool() {
                Ok(b) => b,
                Err(_) => {
                    return Err(self.condition_error(&value, "for statement"));
                },
            };
            proof {
                if is_plain {
                    assert forall|b: Run| #[trigger] loop_runs(*condition, *assignment, block@, m2, b) implies loop_runs(
                        *condition,
                        *assignment,
                        block@,
                        m0,
                        b,
                    ) by {
                        assert(reached(m1));
                        assert(reached(m2));
                        assert(loop_runs(*condition, *assignment, block@, cur, b));
                    }
                    cur = m2;
                }
            }
        }
        proof {
            if is_plain && !holds {
                assert(loop_runs(*condition, *assignment, block@, cur, self.run()));
            }
        }
        let ghost s2 = self.stack;
        let ghost m3: Run = self.run();
        self.stack.pop_scope();
        proof {
            Stack::lemma_scope_closed(s0, s1, s2, self.stack);
            if is_plain {
                assert(closes(m3.0, self.run().0));
                assert(opens(old(self).run().0, s1));
                assert(loop_runs(*condition, *assignment, block@, m0, m3));
                assert(reached(m0));
                assert(reached(m3));
                assert(self.run().1 == m3.1 && self.run().2 == m3.2);
                match declaration {
                    None => assert(m0 == (s1, old(self).run().1, old(self).run().2)),
                    Some(d) => assert(runs(**d, (s1, old(self).run().1, old(self).run().2), m0)),
                }
            }
        }
        Ok(())
    }

    /// Runs a switch in a scope of its own: its expressions, then its cases
    /// in order, until one leaves a `break` pending, which is consumed.
    #[verifier::loop_isolation(false)]
    #[verifier::spinoff_prover]
    #[verifier::rlimit(100)]
    fn run_switch(&mut self, expressions: &Vec<Node<SwitchExpression>>, cases: &Vec<Node<SwitchCase>>) -> (r: Result<(), Halt>)
        requires
            old(self).inv(),
        ensures
            old(self).keeps(final(self)),
            r is Ok ==> same_scopes(old(self).spec_stack(), final(self).spec_stack()),
            plain_switch(expressions@, cases@) && !old(self).spec_returning() && r is Ok ==> switch_runs(
                expressions@,
                cases@,
                old(self).run(),
                final(self).run(),
            ) && !final(self).spec_returning(),
        decreases old(self).spec_fuel(), 1nat,
    {
        let ghost s0 = self.stack;
        let ghost a: Run = self.run();
        let ghost is_plain = plain_switch(expressions@, cases@) && !old(self).spec_returning();
        self.stack.push_scope();
        let ghost s1 = self.stack;
        let ghost start: Run = self.run();
        proof {
            assert(opens(s0, s1));
            Stack::lemma_scopes_compose(s1, s1, s1);
        }
        let mut i: usize = 0;
        while i < expressions.len()
            invariant
                old(self).keeps(self),
                self.spec_fuel() <= a.2,
                i <= expressions@.len(),
                s0.frame_count() >= 1,
                s1.frame_count() == s0.frame_count(),
                s1.frames().drop_last() == s0.frames().drop_last(),
                s1.top().scope_list().drop_last() == s0.top().scope_list(),
                s1.top().scope_list().len() == s0.top().scope_list().len() + 1,
                same_outer_scopes(s1, self.stack),
                is_plain ==> expressions_run(expressions@, i as nat, start, self.run()) && !self.spec_returning(),
            decreases expressions@.len() - i,
        {
            let ghost before = self.stack;
            let ghost mb: Run = self.run();
            self.visit_switch_expression(&expressions[i])?;
            proof {
                Stack::lemma_scopes_compose(s1, before, self.stack);
                if is_plain {
                    assert(reached(mb));
                    assert(expressions_run(expressions@, (i + 1) as nat, start, self.run()));
                }
            }
            i = i + 1;
        }
        let ghost m0: Run = self.run();
        proof {
            if is_plain {
                assert(expressions_run(expressions@, expressions@.len(), start, m0));
            }
        }
        let mut j: usize = 0;
        while j < cases.len()
            invariant
                old(self).keeps(self),
                self.spec_fuel() <= m0.2,
                m0.2 <= a.2,
                j <= cases@.len(),
                s0.frame_count() >= 1,
                s1.frame_count() == s0.frame_count(),
                s1.frames().drop_last() == s0.frames().drop_last(),
                s1.top().scope_list().drop_last() == s0.top().scope_list(),
                s1.top().scope_list().len() == s0.top().scope_list().len() + 1,
                same_outer_scopes(s1, self.stack),
                is_plain ==> cases_run(cases@, j as nat, m0, self.run()) && (j > 0 ==> !self.spec_breaking()) && !self.spec_returning(),
            decreases cases@.len() - j,
        {
            let ghost before = self.stack;
            let ghost mb: Run = self.run();
            self.visit_switch_case(&cases[j])?;
            let ghost mc: Run = self.run();
            proof {
                Stack::lemma_scopes_compose(s1, before, self.stack);
                if is_plain {
                    assert(reached(mb));
                    assert(cases_run(cases@, (j + 1) as nat, m0, mc));
                }
            }
            if self.is_returning {
                break;
            }
            if self.is_breaking {
                self.is_breaking = false;
                proof {
                    if is_plain {
                        assert(counted((j + 1) as nat));
                        assert(reached(mc));
                        assert(cases_done(cases@, m0, self.run()));
                    }
                }
                break;
            }
            j = j + 1;
        }
        proof {
            if is_plain && j == cases@.len() {
                assert(counted(j as nat));
                assert(reached(self.run()));
                assert(cases_done(cases@, m0, self.run()));
            }
        }
        let ghost s2 = self.stack;
        let ghost m3: Run = self.run();
        self.stack.pop_scope();
        proof {
            Stack::lemma_scope_closed(s0, s1, s2, self.stack);
            if is_plain {
                assert(closes(m3.0, self.run().0));
                assert(opens(old(self).run().0, s1));
                assert(start == (s1, old(self).run().1, old(self).run().2));
                assert(cases_done(cases@, m0, m3));
                assert(reached(m0));
                assert(reached(m3));
                assert(self.run().1 == m3.1 && self.run().2 == m3.2);
            }
        }
        Ok(())
    }
}


impl<'a, F: FloatArithmetic> Interpreter<'a, F> {
    /// The index of the first user function called `name`.
    fn find_function(&self, name: &str) -> (r: Option<usize>)
        ensures
            r matches Some(k) ==> k < self.spec_program().functions@.len()
                && self.spec_program().functions@[k as int].value.identifier.value@ == name@,
            r matches Some(k) ==> forall|j: int| 0 <= j < k ==> #[trigger] self.spec_program().functions@[j].value.identifier.value@ != name@,
            r is None ==> forall|k: int|
                0 <= k < self.spec_program().functions@.len() ==> #[trigger] self.spec_program().functions@[k].value.identifier.value@
                    != name@,
    {
        let program = self.program;
        let mut k: usize = 0;
        while k < program.functions.len()
            invariant
                program == self.program,
                k <= program.functions@.len(),
                forall|j: int| 0 <= j < k ==> #[trigger] program.functions@[j].value.identifier.value@ != name@,
            decreases program.functions@.len() - k,
        {
            if crate::text::str_equal(program.functions[k].value.identifier.value.as_str(), name) {
                return Some(k);
            }
            k = k + 1;
        }
        None
    }

    /// The values of the arguments of the call being made, a reference read
    /// from the cell it names.
    fn argument_values(&self) -> (r: Result<Vec<Value>, Halt>)
        requires
            self.inv(),
        ensures
            (forall|k: int| 0 <= k < self.spec_arguments().len() ==> #[trigger] self.spec_arguments()[k] is Value) ==> r is Ok,
            r matches Ok(vs) ==> vs@.len() == self.spec_arguments().len() && forall|k: int|
                0 <= k < vs@.len() ==> (#[trigger] self.spec_arguments()[k] matches CallArgument::Value(v) ==> vs@[k] == v),
    {
        let mut values: Vec<Value> = Vec::new();
        let mut i: usize = 0;
        while i < self.last_arguments.len()
            invariant
                self.inv(),
                i <= self.last_arguments@.len(),
                values@.len() == i,
                forall|k: int| 0 <= k < i ==> (#[trigger] self.last_arguments@[k] matches CallArgument::Value(v) ==> values@[k] == v),
            decreases self.last_arguments@.len() - i,
        {
            match &self.last_arguments[i] {
                CallArgument::Value(v) => values.push(v.duplicate()),
                CallArgument::Reference(f, c) => match self.stack.get_cell(*f, *c) {
                    Some(v) => values.push(v),
                    None => {
                        return Err(self.fail_here(String::from_str("Argument passed by reference is not a variable.")));
                    },
                },
            }
            i = i + 1;
        }
        Ok(values)
    }

    /// Calls `identifier` with `arguments`: each is evaluated in turn, then
    /// the built-in or user function runs. A pending `return` ends here.
    #[verifier::spinoff_prover]
    pub fn call_function(&mut self, identifier: &Node<String>, arguments: &Vec<Node<Argument>>) -> (r: Result<(), Halt>)
        requires
            old(self).inv(),
        ensures
            std_function_named(identifier.value@) is Some && plain_arguments(arguments@) && old(self).spec_fuel()
                > arguments_size(arguments@) && functions_well_named(old(self).spec_program().functions@) && r is Ok
                ==> exists|vals: Seq<Value>| #[trigger] evaluated_arguments(arguments@, old(self).spec_stack(), vals)
                && std_call_done(std_function_named(identifier.value@)->0, vals, old(self).spec_console(), final(self).spec_console(), final(self).spec_last_result()),
            old(self).keeps(final(self)),
            r is Ok ==> same_scopes(old(self).spec_stack(), final(self).spec_stack()),
            r is Ok ==> !final(self).spec_returning(),
            old(self).spec_fuel() == 0 ==> failed_with(r, with_position("Execution step limit reached."@, old(self).spec_position())),
            std_function_named(identifier.value@) is Some && plain_arguments(arguments@) && old(self).spec_fuel() > arguments_size(arguments@)
                && arguments_succeed(arguments@, old(self).spec_stack()) && functions_well_named(old(self).spec_program().functions@)
                ==> exists|vals: Seq<Value>, o: StdOutcome|
                #[trigger] evaluated_arguments(arguments@, old(self).spec_stack(), vals) && #[trigger] std_effect(
                    std_function_named(identifier.value@)->0,
                    vals,
                    old(self).spec_console(),
                    final(self).spec_console(),
                    o,
                ) && std_reply(o, r, final(self).spec_last_result()),
            std_function_named(identifier.value@) is None ==> forall|k: int|
                0 <= k < old(self).spec_program().functions@.len() && (#[trigger] old(self).spec_program().functions@[k]).value.identifier.value@
                    == identifier.value@ && (forall|j: int|
                    0 <= j < k ==> old(self).spec_program().functions@[j].value.identifier.value@ != identifier.value@) ==> (r is Ok
                    ==> match final(self).spec_last_result() {
                    None => old(self).spec_program().functions@[k].value.return_type.value == Type::Void,
                    Some(v) => spec_value_type(v) == old(self).spec_program().functions@[k].value.return_type.value,
                }),
            old(self).spec_fuel() > 0 && arguments@.len() == 0 && std_function_named(identifier.value@) is None && (forall|k: int|
                0 <= k < old(self).spec_program().functions@.len() ==> #[trigger] old(self).spec_program().functions@[k].value.identifier.value@
                    != identifier.value@) ==> {
                &&& r is Ok
                &&& final(self).spec_stack() == old(self).spec_stack()
                &&& final(self).spec_console() == old(self).spec_console()
                &&& final(self).spec_last_result() == old(self).spec_last_result()
            },
            plain_arguments(arguments@) && old(self).spec_fuel() > arguments_size(arguments@) && arguments_succeed(arguments@, old(self).spec_stack())
                && std_function_named(identifier.value@) is None && (forall|k: int|
                0 <= k < old(self).spec_program().functions@.len() ==> #[trigger] old(self).spec_program().functions@[k].value.identifier.value@
                    != identifier.value@) ==> {
                &&& r is Ok
                &&& final(self).spec_stack() == old(self).spec_stack()
                &&& final(self).spec_console() == old(self).spec_console()
            },
        decreases old(self).spec_fuel(), 0nat,
    {
        self.tick()?;
        let ghost s0 = self.stack;
        proof {
            Stack::lemma_scopes_compose(s0, s0, s0);
        }
        let name = identifier.value.as_str();
        let mut args: Vec<CallArgument> = Vec::new();
        let mut i: usize = 0;
        while i < arguments.len()
            invariant
                old(self).keeps(self),
                self.spec_fuel() < old(self).spec_fuel(),
                i <= arguments@.len(),
                s0 == old(self).spec_stack(),
                same_scopes(s0, self.stack),
                arguments@.len() == 0 ==> self.last_result == old(self).last_result,
                plain_arguments(arguments@) && old(self).spec_fuel() > arguments_size(arguments@) ==> {
                    &&& self.stack == s0
                    &&& self.console == old(self).console
                    &&& args@.len() == i
                    &&& i > 0 ==> self.last_result is None
                    &&& self.fuel + 1 + arguments_size(arguments@.take(i as int)) == old(self).fuel
                    &&& forall|k: int| 0 <= k < i ==> (#[trigger] args@[k] matches CallArgument::Value(v) && evaluates(
                        arguments@[k].value.value,
                        s0,
                        Ok(v),
                    ))
                },
            decreases arguments@.len() - i,
        {
            let ghost before = self.stack;
            proof {
                if plain_arguments(arguments@) && old(self).spec_fuel() > arguments_size(arguments@) {
                    lemma_arguments_size_prefix(arguments@, i + 1);
                    assert(arguments@.take(i + 1).drop_last() =~= arguments@.take(i as int));
                    assert(arguments@[i as int].value.passed_by == PassedBy::Value && call_free(arguments@[i as int].value.value));
                }
            }
            let evaluated = self.visit_expression(&arguments[i].value.value);
            proof {
                if plain_arguments(arguments@) && old(self).spec_fuel() > arguments_size(arguments@) && arguments_succeed(arguments@, s0) {
                    assert(evaluates(arguments@[i as int].value.value, s0, run_outcome(evaluated, self.spec_last_result())));
                }
            }
            evaluated?;
            proof {
                Stack::lemma_scopes_compose(s0, before, self.stack);
            }
            let ghost args_before = args@;
            let value = self.read_last_result()?;
            match arguments[i].value.passed_by {
                PassedBy::Value => {
                    args.push(CallArgument::Value(value));
                    proof {
                        assert(args@.drop_last() =~= args_before);
                    }
                },
                PassedBy::Reference => {
                    if let Expression::Variable(var_name) = &arguments[i].value.value.value {
                        match self.stack.get_reference(var_name.as_str()) {
                            Ok((f, c)) => args.push(CallArgument::Reference(f, c)),
                            Err(e) => {
                                return Err(halt(e.message));
                            },
                        }
                    }
                },
            }
            i = i + 1;
        }
        self.last_arguments = args;
        let ghost mut called: Seq<Value> = Seq::empty();
        let ghost mut outcome: StdOutcome = StdOutcome::NeedsInput;
        if let Some(std_function) = StdFunction::from_name(name) {
            let values = self.argument_values()?;
            proof {
                if plain_arguments(arguments@) && old(self).spec_fuel() > arguments_size(arguments@) {
                    assert forall|k: int| 0 <= k < arguments@.len() implies #[trigger] evaluates(
                        arguments@[k].value.value,
                        s0,
                        Ok(values@[k]),
                    ) by {
                        assert(self.spec_arguments()[k] matches CallArgument::Value(v) && evaluates(arguments@[k].value.value, s0, Ok(v)));
                    }
                    assert(evaluated_arguments(arguments@, s0, values@));
                }
            }
            let ghost console_before = self.console;
            let result = std_function.execute(&values, &mut self.console);
            proof {
                called = values@;
                outcome = result;
                assert(std_effect(std_function, values@, console_before, self.console, result));
            }
            match result {
                StdOutcome::Returned(Some(v)) => {
                    self.last_result = Some(v);
                },
                StdOutcome::Returned(None) => {},
                StdOutcome::Failed(e) => {
                    let h = self.fail_here(e.message);
                    proof {
                        assert(h matches Halt::Failed(x) && x.message@ == with_position(e.message@, self.position));
                        assert(std_reply(outcome, Err(h), self.last_result));
                        if plain_arguments(arguments@) && old(self).spec_fuel() > arguments_size(arguments@) {
                            assert(evaluated_arguments(arguments@, s0, called));
                            assert(std_effect(std_function, called, old(self).spec_console(), self.console, outcome));
                            assert(std_function == std_function_named(identifier.value@)->0);
                            assert(evaluated_arguments(arguments@, old(self).spec_stack(), called));
                            assert(std_effect(std_function_named(identifier.value@)->0, called, old(self).spec_console(), self.spec_console(), outcome));
                            assert(exists|vals: Seq<Value>, o: StdOutcome|
                                #[trigger] evaluated_arguments(arguments@, old(self).spec_stack(), vals) && #[trigger] std_effect(
                                    std_function_named(identifier.value@)->0,
                                    vals,
                                    old(self).spec_console(),
                                    self.spec_console(),
                                    o,
                                ) && std_reply(o, Err(h), self.spec_last_result()));
                        }
                    }
                    return Err(h);
                },
                StdOutcome::NeedsInput => {
                    proof {
                        if plain_arguments(arguments@) && old(self).spec_fuel() > arguments_size(arguments@) {
                            assert(std_function == std_function_named(identifier.value@)->0);
                            assert(evaluated_arguments(arguments@, old(self).spec_stack(), called));
                            assert(std_effect(std_function_named(identifier.value@)->0, called, old(self).spec_console(), self.spec_console(), outcome));
                            assert(std_reply(outcome, Err(Halt::NeedsInput), self.spec_last_result()));
                        }
                    }
                    return Err(Halt::NeedsInput);
                },
            }
            proof {
                if plain_arguments(arguments@) && old(self).spec_fuel() > arguments_size(arguments@) {
                    assert(std_function == std_function_named(identifier.value@)->0);
                    assert(evaluated_arguments(arguments@, old(self).spec_stack(), called));
                    assert(std_effect(std_function_named(identifier.value@)->0, called, old(self).spec_console(), self.spec_console(), outcome));
                    assert(std_reply(outcome, Ok(()), self.spec_last_result()));
                }
            }
        }
        proof {
            if std_function_named(identifier.value@) is Some {
                assert(crate::parser::spec_is_std_function_name(identifier.value@));
            }
        }
        let ghost before_user = *self;
        let found = self.find_function(name);
        if let Some(k) = found {
            let program = self.program;
            let ghost before = self.stack;
            self.execute_function(&program.functions[k].value)?;
            proof {
                Stack::lemma_scopes_compose(s0, before, self.stack);
            }
        }
        if self.is_returning {
            self.is_returning = false;
        }
        self.last_arguments = Vec::new();
        proof {
            let functions = old(self).spec_program().functions@;
            if std_function_named(identifier.value@) is Some && plain_arguments(arguments@) && old(self).spec_fuel() > arguments_size(arguments@)
                && functions_well_named(functions) {
                assert(found is None) by {
                    if found is Some {
                        assert(functions[found->0 as int].value.identifier.value@ == identifier.value@);
                        assert(!crate::parser::spec_is_std_function_name(functions[found->0 as int].value.identifier.value@));
                    }
                }
                assert(self.spec_console() == before_user.spec_console());
                assert(self.spec_last_result() == before_user.spec_last_result());
                assert(evaluated_arguments(arguments@, old(self).spec_stack(), called));
                assert(std_effect(std_function_named(identifier.value@)->0, called, old(self).spec_console(), self.spec_console(), outcome));
                assert(std_reply(outcome, Ok(()), self.spec_last_result()));
            }
            if std_function_named(identifier.value@) is None {
                assert(before_user.spec_program().functions@ == functions);
                assert(name@ == identifier.value@);
                assert forall|kk: int|
                    0 <= kk < functions.len() && (#[trigger] functions[kk]).value.identifier.value@ == identifier.value@ && (forall|j: int|
                        0 <= j < kk ==> functions[j].value.identifier.value@ != identifier.value@) implies match self.spec_last_result() {
                    None => functions[kk].value.return_type.value == Type::Void,
                    Some(v) => spec_value_type(v) == functions[kk].value.return_type.value,
                } by {
                    if found is None {
                        assert(before_user.spec_program().functions@[kk].value.identifier.value@ != name@);
                    } else {
                        let k2 = found->0 as int;
                        if k2 < kk {
                            assert(functions[k2].value.identifier.value@ != identifier.value@);
                        } else if kk < k2 {
                            assert(functions[kk].value.identifier.value@ != name@);
                        }
                    }
                }
            }
        }
        Ok(())
    }

    /// Runs a user function on the arguments of the call being made, in a
    /// frame of its own: each parameter is declared with its argument, which
    /// must have the parameter's type, and the value returned must have the
    /// function's return type.
    #[verifier::spinoff_prover]
    pub fn execute_function(&mut self, function_declaration: &FunctionDeclaration) -> (r: Result<(), Halt>)
        requires
            old(self).inv(),
        ensures
            old(self).keeps(final(self)),
            r is Ok ==> same_scopes(old(self).spec_stack(), final(self).spec_stack()),
            old(self).spec_fuel() > 0 && old(self).spec_stack().frame_count() == MAX_FRAMES ==> failed_with(r, "Stack overflow."@),
            r is Ok ==> old(self).spec_arguments().len() <= function_declaration.parameters@.len(),
            r is Ok ==> forall|k: int| 0 <= k < old(self).spec_arguments().len()
                ==> (#[trigger] old(self).spec_arguments()[k] matches CallArgument::Value(v)
                ==> spec_value_type(v) == function_declaration.parameters@[k].value.parameter_type.value),
            r is Ok ==> match final(self).spec_last_result() {
                None => function_declaration.return_type.value == Type::Void,
                Some(v) => spec_value_type(v) == function_declaration.return_type.value,
            },
            old(self).spec_fuel() > 0 && old(self).spec_stack().frame_count() < MAX_FRAMES && old(self).spec_arguments().len()
                <= function_declaration.parameters@.len() ==> forall|k: int|
                0 <= k < old(self).spec_arguments().len() && distinct_parameters(function_declaration.parameters@.take(k + 1)) && (
                #[trigger] old(self).spec_arguments()[k] matches CallArgument::Value(v)
                && spec_value_type(v) != function_declaration.parameters@[k].value.parameter_type.value) && (forall|j: int|
                0 <= j < k ==> argument_fits(old(self).spec_arguments()[j], function_declaration.parameters@[j])) ==> failed_with(
                r,
                with_position(
                    argument_type_text(
                        function_declaration.identifier.value@,
                        function_declaration.parameters@[k].value.parameter_type.value,
                        spec_value_type(old(self).spec_arguments()[k]->Value_0),
                    ),
                    old(self).spec_position(),
                ),
            ),
            old(self).spec_fuel() > 0 && old(self).spec_stack().frame_count() < MAX_FRAMES && old(self).spec_arguments().len()
                <= function_declaration.parameters@.len() && distinct_parameters(function_declaration.parameters@) && (forall|j: int|
                0 <= j < old(self).spec_arguments().len() ==> argument_fits(
                    #[trigger] old(self).spec_arguments()[j],
                    function_declaration.parameters@[j],
                )) && function_declaration.block.value.0@.len() == 0 ==> match old(self).spec_last_result() {
                None => {
                    &&& (function_declaration.return_type.value == Type::Void <==> r is Ok)
                    &&& function_declaration.return_type.value != Type::Void ==> failed_with(
                        r,
                        with_position(
                            no_return_value_text(function_declaration.identifier.value@, function_declaration.return_type.value),
                            old(self).spec_position(),
                        ),
                    )
                },
                Some(v) => (spec_value_type(v) == function_declaration.return_type.value <==> r is Ok),
            },
            all_plain(function_declaration.block.value.0@) && !old(self).spec_breaking() && !old(self).spec_returning() && r is Ok ==> exists|
                t: Stack,
                m: Run,
            |
                #![trigger binds(old(self).spec_stack(), function_declaration.parameters@, old(self).spec_arguments(), t), reached(m)]
                binds(old(self).spec_stack(), function_declaration.parameters@, old(self).spec_arguments(), t) && statements_run(
                    function_declaration.block.value.0@,
                    function_declaration.block.value.0@.len(),
                    (t, false, (old(self).spec_fuel() - 1) as nat),
                    m,
                ) && !m.1 && final(self).spec_stack().frames() == m.0.frames().drop_last(),
        decreases old(self).spec_fuel(), 0nat,
    {
        self.tick()?;
        let ghost s0 = self.stack;
        let name = &function_declaration.identifier.value;
        if let Err(e) = self.stack.push_stack_frame() {
            return Err(halt(e.message));
        }
        let ghost s1 = self.stack;
        proof {
            Stack::lemma_scopes_compose(s1, s1, s1);
        }
        let mut idx: usize = 0;
        while idx < self.last_arguments.len()
            invariant
                old(self).keeps(self),
                self.spec_fuel() < old(self).spec_fuel(),
                idx <= self.last_arguments@.len(),
                idx <= function_declaration.parameters@.len(),
                self.last_arguments@ == old(self).last_arguments@,
                forall|k: int| 0 <= k < idx ==> (#[trigger] self.last_arguments@[k] matches CallArgument::Value(v)
                    ==> spec_value_type(v) == function_declaration.parameters@[k].value.parameter_type.value),
                s0 == old(self).spec_stack(),
                s1.frames().drop_last() == s0.frames(),
                s1.frame_count() == s0.frame_count() + 1,
                same_outer_scopes(s1, self.stack),
                self.position == old(self).position,
                name@ == function_declaration.identifier.value@,
                self.last_result == old(self).last_result,
                s1.top().scope_count() == 1,
                self.stack.frame_count() == s0.frame_count() + 1,
                self.stack.frames().drop_last() == s0.frames(),
                self.stack.top().scope_count() == 1,
                self.spec_fuel() + 1 == old(self).spec_fuel(),
                self.spec_breaking() == old(self).spec_breaking(),
                self.spec_returning() == old(self).spec_returning(),
                forall|n: Seq<char>| #[trigger]
                    self.stack.binding_of(n) is Some ==> exists|j: int|
                        0 <= j < idx && n == (#[trigger] function_declaration.parameters@[j]).value.identifier.value@,
                forall|k: int|
                    0 <= k < idx ==> match #[trigger] self.last_arguments@[k] {
                        CallArgument::Value(v) => self.stack.reference_of(function_declaration.parameters@[k].value.identifier.value@) matches Some(
                            (g, i),
                        ) && g == s0.frame_count() && i < self.stack.top().cells().len() && self.stack.cell(g, i) == v,
                        CallArgument::Reference(f, c) => self.stack.reference_of(function_declaration.parameters@[k].value.identifier.value@)
                            == Some((f as int, c as int)),
                    },
                (forall|j: int|
                    0 <= j < idx ==> argument_fits(self.last_arguments@[j], function_declaration.parameters@[j])) ==> forall|n: Seq<char>|
                    #[trigger] self.stack.binding_of(n) is Some ==> exists|j: int|
                    0 <= j < idx && n == (#[trigger] function_declaration.parameters@[j]).value.identifier.value@,
            decreases self.last_arguments@.len() - idx,
        {
            let ghost before = self.stack;
            if idx >= function_declaration.parameters.len() {
                let mut s = String::from_str("Function '");
                s.append(name.as_str());
                s.append("' was given more arguments than it has parameters.");
                return Err(self.fail_here(s));
            }
            let parameter = &function_declaration.parameters[idx].value;
            let desired = parameter.parameter_type.value;
            let got = match &self.last_arguments[idx] {
                CallArgument::Value(v) => v.duplicate(),
                CallArgument::Reference(f, c) => match self.stack.get_cell(*f, *c) {
                    Some(v) => v,
                    None => {
                        return Err(self.fail_here(String::from_str("Argument passed by reference is not a variable.")));
                    },
                },
            };
            if got.to_type() != desired {
                let mut s = String::from_str("Function '");
                s.append(name.as_str());
                s.append("' expected '");
                s.append(desired.text());
                s.append("', but got '");
                s.append(got.to_type().text());
                s.append("'.");
                proof {
                    assert(s@ == argument_type_text(name@, desired, spec_value_type(got)));
                    assert(self.position == old(self).spec_position());
                    if self.last_arguments@[idx as int] is Value {
                        assert(spec_value_type(old(self).spec_arguments()[idx as int]->Value_0) == spec_value_type(got));
                    }
                    assert forall|k: int|
                        0 <= k < old(self).spec_arguments().len() && (#[trigger] old(self).spec_arguments()[k] matches CallArgument::Value(v)
                            && spec_value_type(v) != function_declaration.parameters@[k].value.parameter_type.value) && (forall|j: int|
                            0 <= j < k ==> argument_fits(old(self).spec_arguments()[j], function_declaration.parameters@[j])) implies k
                        == idx by {
                        if k < idx {
                            assert(self.last_arguments@[k] == old(self).spec_arguments()[k]);
                        } else if k > idx {
                            assert(argument_fits(old(self).spec_arguments()[idx as int], function_declaration.parameters@[idx as int]));
                        }
                    }
                }
                let h = self.fail_here(s);
                proof {
                    assert(name@ == function_declaration.identifier.value@);
                    assert(desired == function_declaration.parameters@[idx as int].value.parameter_type.value);
                    assert(h matches Halt::Failed(e) && e.message@ == with_position(s@, old(self).spec_position()));
                    if self.last_arguments@[idx as int] is Value {
                        assert(failed_with(
                            Err(h),
                            with_position(
                                argument_type_text(
                                    function_declaration.identifier.value@,
                                    function_declaration.parameters@[idx as int].value.parameter_type.value,
                                    spec_value_type(old(self).spec_arguments()[idx as int]->Value_0),
                                ),
                                old(self).spec_position(),
                            ),
                        ));
                    }
                }
                return Err(h);
            }
            let param_name = parameter.identifier.value.as_str();
            let declared = match &self.last_arguments[idx] {
                CallArgument::Value(_) => self.stack.declare_variable(param_name, got),
                CallArgument::Reference(f, c) => self.stack.declare_reference(param_name, *f, *c),
            };
            if let Err(e) = declared {
                proof {
                    let ps = function_declaration.parameters@;
                    assert forall|k: int|
                        0 <= k < old(self).spec_arguments().len() && old(self).spec_arguments().len() <= ps.len() && distinct_parameters(
                            ps.take(k + 1),
                        ) && (
                        #[trigger] old(self).spec_arguments()[k] matches CallArgument::Value(v) && spec_value_type(v)
                            != ps[k].value.parameter_type.value) && (forall|j: int|
                            0 <= j < k ==> argument_fits(old(self).spec_arguments()[j], ps[j])) implies false by {
                        if k < idx {
                            assert(self.last_arguments@[k] == old(self).spec_arguments()[k]);
                        } else if k == idx {
                        } else {
                            assert(argument_fits(old(self).spec_arguments()[idx as int], ps[idx as int]));
                            assert(before.binding_of(param_name@) is Some);
                            let j = choose|j: int| 0 <= j < idx && param_name@ == (#[trigger] ps[j]).value.identifier.value@;
                            assert(ps.take(k + 1)[j] == ps[j]);
                            assert(ps.take(k + 1)[idx as int] == ps[idx as int]);
                        }
                    }
                }
                return Err(self.fail_here(e.message));
            }
            proof {
                Stack::lemma_scopes_compose(s1, before, self.stack);
            }
            idx = idx + 1;
        }
        let statements = &function_declaration.block.value.0;
        let ghost t = self.stack;
        let ghost start: Run = self.run();
        let ghost is_plain = all_plain(statements@) && !old(self).spec_breaking() && !old(self).spec_returning();
        proof {
            if is_plain {
                assert(binds(old(self).spec_stack(), function_declaration.parameters@, old(self).spec_arguments(), t));
            }
        }
        let mut k: usize = 0;
        while k < statements.len() && !self.is_returning
            invariant
                is_plain == (all_plain(statements@) && !old(self).spec_breaking() && !old(self).spec_returning()),
                start == (t, old(self).spec_breaking(), (old(self).spec_fuel() - 1) as nat),
                t.frame_count() == s0.frame_count() + 1,
                is_plain ==> statements_run(statements@, k as nat, start, self.run()) && !self.spec_returning() && (k > 0 ==> !self.spec_breaking()),
                old(self).keeps(self),
                self.spec_fuel() < old(self).spec_fuel(),
                k <= statements@.len(),
                s0 == old(self).spec_stack(),
                s1.frames().drop_last() == s0.frames(),
                s1.frame_count() == s0.frame_count() + 1,
                same_outer_scopes(s1, self.stack),
                forall|j: int| 0 <= j < old(self).spec_arguments().len() ==> (#[trigger] old(self).spec_arguments()[j] matches CallArgument::Value(v)
                    ==> spec_value_type(v) == function_declaration.parameters@[j].value.parameter_type.value),
                name@ == function_declaration.identifier.value@,
                statements == &function_declaration.block.value.0,
                k == 0 ==> self.last_result == old(self).last_result && self.position == old(self).position,
            decreases statements@.len() - k,
        {
            let ghost before = self.stack;
            let ghost m: Run = self.run();
            self.visit_statement(&statements[k])?;
            proof {
                Stack::lemma_scopes_compose(s1, before, self.stack);
            }
            if self.is_breaking {
                return Err(self.fail_here(String::from_str("Break called outside 'for' or 'switch'.")));
            }
            proof {
                if is_plain {
                    assert(reached(m));
                    assert(statements_run(statements@, (k + 1) as nat, start, self.run()));
                }
            }
            k = k + 1;
        }
        if k < statements.len() {
            self.is_returning = false;
        }
        let ghost mid: Run = self.run();
        let returned_ok = match &self.last_result {
            None => function_declaration.return_type.value == Type::Void,
            Some(v) => v.to_type() == function_declaration.return_type.value,
        };
        if !returned_ok {
            let mut s = String::from_str("Bad return type from function '");
            s.append(name.as_str());
            s.append("'. Expected '");
            s.append(function_declaration.return_type.value.text());
            s.append("', but got '");
            match &self.last_result {
                None => s.append("None"),
                Some(v) => {
                    s.append("Some(");
                    let t = v.debug_text(self.floats);
                    s.append(t.as_str());
                    s.append(")");
                },
            }
            s.append("'.");
            return Err(self.fail_here(s));
        }
        let ghost s2 = self.stack;
        self.stack.pop_stack_frame();
        proof {
            Stack::lemma_frame_closed(s0, s1, s2, self.stack);
            if is_plain {
                assert(k == statements@.len());
                assert(reached(mid));
                assert(self.spec_stack().frames() == mid.0.frames().drop_last());
                assert(start == (t, false, (old(self).spec_fuel() - 1) as nat));
            }
        }
        Ok(())
    }
}

} // verus!

