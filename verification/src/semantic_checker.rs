//! The semantic check: every call names a known function, with as many
//! arguments as it has parameters, each passed as the parameter asks.
use vstd::prelude::*;
use vstd::string::StringExecFns;

use crate::ast::{spec_passed_by_text, Argument, Block, Expression, FunctionDeclaration, Node, Parameter, PassedBy, Program, Statement, SwitchCase, SwitchExpression};
use crate::issues::SemanticCheckerIssue;
use crate::position::{position_text, Position};
use crate::std_functions::{std_function_named, std_params, StdFunction};
use crate::text::{nat_text, u64_to_string};

verus! {

pub open spec fn at_text(p: Position) -> Seq<char> {
    ".\nAt "@ + position_text(p) + ".\n"@
}

pub open spec fn argument_count_text(name: Seq<char>, expected: nat, given: nat, p: Position) -> Seq<char> {
    "Invalid number of arguments for function '"@ + name + "'. Expected "@ + nat_text(expected) + ", given "@
        + nat_text(given) + at_text(p)
}

pub open spec fn std_reference_text(name: Seq<char>, p: Position) -> Seq<char> {
    "Parameter in function '"@ + name + "' passed by Reference - should be passed by Value"@ + at_text(p)
}

pub open spec fn passed_by_mismatch_text(
    param: Seq<char>,
    name: Seq<char>,
    given: PassedBy,
    expected: PassedBy,
    p: Position,
) -> Seq<char> {
    "Parameter '"@ + param + "' in function '"@ + name + "' passed by "@ + spec_passed_by_text(given)
        + " - should be passed by "@ + spec_passed_by_text(expected) + at_text(p)
}

pub open spec fn complex_reference_text(param: Seq<char>, name: Seq<char>, p: Position) -> Seq<char> {
    "Parameter '"@ + param + "' in function '"@ + name
        + "' is passed by Reference. Thus it needs to an identifier, but a complex expression was found"@ + at_text(p)
}

pub open spec fn undeclared_text(name: Seq<char>, p: Position) -> Seq<char> {
    "Use of undeclared function '"@ + name + "'"@ + at_text(p)
}

/// The index of the first user function from the `k`th on called `name`.
pub open spec fn find_function_from(fs: Seq<Node<FunctionDeclaration>>, name: Seq<char>, k: int) -> Option<int>
    decreases fs.len() - k,
{
    if k < 0 || k >= fs.len() {
        None
    } else if fs[k].value.identifier.value@ == name {
        Some(k)
    } else {
        find_function_from(fs, name, k + 1)
    }
}

/// The index of the first user function called `name`.
pub open spec fn find_function(fs: Seq<Node<FunctionDeclaration>>, name: Seq<char>) -> Option<int> {
    find_function_from(fs, name, 0)
}

/// The issues of arguments passed by reference to a built-in function.
pub open spec fn std_reference_issues(name: Seq<char>, args: Seq<Node<Argument>>) -> Seq<Seq<char>>
    decreases args.len(),
{
    if args.len() == 0 {
        seq![]
    } else {
        std_reference_issues(name, args.drop_last()) + if args.last().value.passed_by == PassedBy::Reference {
            seq![std_reference_text(name, args.last().position)]
        } else {
            seq![]
        }
    }
}

/// The issues of the argument given for parameter `param` (the `idx`th).
pub open spec fn parameter_issues(name: Seq<char>, param: Node<Parameter>, idx: int, args: Seq<Node<Argument>>) -> Seq<
    Seq<char>,
> {
    if idx < args.len() {
        let arg = args[idx];
        (if arg.value.passed_by != param.value.passed_by {
            seq![
                passed_by_mismatch_text(
                    param.value.identifier.value@,
                    name,
                    arg.value.passed_by,
                    param.value.passed_by,
                    arg.position,
                ),
            ]
        } else {
            seq![]
        }) + (if arg.value.passed_by == PassedBy::Reference && !(arg.value.value.value is Variable) {
            seq![complex_reference_text(param.value.identifier.value@, name, arg.position)]
        } else {
            seq![]
        })
    } else {
        seq![]
    }
}

/// The issues of the arguments given for the first `n` parameters.
pub open spec fn parameters_issues(name: Seq<char>, params: Seq<Node<Parameter>>, n: int, args: Seq<Node<Argument>>) -> Seq<
    Seq<char>,
>
    decreases n,
{
    if n <= 0 {
        seq![]
    } else {
        parameters_issues(name, params, n - 1, args) + parameter_issues(name, params[n - 1], n - 1, args)
    }
}

/// The issues of one call of `name` at `p`, the call itself only.
pub open spec fn call_issues(fs: Seq<Node<FunctionDeclaration>>, name: Seq<char>, args: Seq<Node<Argument>>, p: Position) -> Seq<
    Seq<char>,
> {
    match std_function_named(name) {
        Some(f) => (if args.len() != std_params(f).len() {
            seq![argument_count_text(name, std_params(f).len(), args.len(), p)]
        } else {
            seq![]
        }) + std_reference_issues(name, args),
        None => match find_function(fs, name) {
            Some(i) => {
                let params = fs[i].value.parameters@;
                (if args.len() != params.len() {
                    seq![argument_count_text(name, params.len(), args.len(), p)]
                } else {
                    seq![]
                }) + parameters_issues(name, params, params.len() as int, args)
            },
            None => seq![undeclared_text(name, p)],
        },
    }
}

/// The issues of the calls in an expression, in the order they are met.
pub open spec fn expression_issues(fs: Seq<Node<FunctionDeclaration>>, e: Node<Expression>) -> Seq<Seq<char>>
    decreases e, 0int,
{
    match e.value {
        Expression::FunctionCall { identifier, arguments } => call_issues(fs, identifier.value@, arguments@, e.position)
            + arguments_issues(fs, arguments@, arguments@.len() as int),
        Expression::Alternative(l, r) => expression_issues(fs, *l) + expression_issues(fs, *r),
        Expression::Concatenation(l, r) => expression_issues(fs, *l) + expression_issues(fs, *r),
        Expression::Greater(l, r) => expression_issues(fs, *l) + expression_issues(fs, *r),
        Expression::GreaterEqual(l, r) => expression_issues(fs, *l) + expression_issues(fs, *r),
        Expression::Less(l, r) => expression_issues(fs, *l) + expression_issues(fs, *r),
        Expression::LessEqual(l, r) => expression_issues(fs, *l) + expression_issues(fs, *r),
        Expression::Equal(l, r) => expression_issues(fs, *l) + expression_issues(fs, *r),
        Expression::NotEqual(l, r) => expression_issues(fs, *l) + expression_issues(fs, *r),
        Expression::Addition(l, r) => expression_issues(fs, *l) + expression_issues(fs, *r),
        Expression::Subtraction(l, r) => expression_issues(fs, *l) + expression_issues(fs, *r),
        Expression::Multiplication(l, r) => expression_issues(fs, *l) + expression_issues(fs, *r),
        Expression::Division(l, r) => expression_issues(fs, *l) + expression_issues(fs, *r),
        Expression::BooleanNegation(v) => expression_issues(fs, *v),
        Expression::ArithmeticNegation(v) => expression_issues(fs, *v),
        Expression::Casting { value, .. } => expression_issues(fs, *value),
        Expression::Literal(_) => seq![],
        Expression::Variable(_) => seq![],
    }
}

/// The issues of the calls in the first `n` arguments.
pub open spec fn arguments_issues(fs: Seq<Node<FunctionDeclaration>>, args: Seq<Node<Argument>>, n: int) -> Seq<Seq<char>>
    decreases args, n,
{
    if n <= 0 || n > args.len() {
        seq![]
    } else {
        arguments_issues(fs, args, n - 1) + expression_issues(fs, args[n - 1].value.value)
    }
}

/// The issues of the calls in a statement, in the order they are met.
pub open spec fn statement_issues(fs: Seq<Node<FunctionDeclaration>>, s: Node<Statement>) -> Seq<Seq<char>>
    decreases s, 0int,
{
    match s.value {
        Statement::FunctionCall { identifier, arguments } => call_issues(fs, identifier.value@, arguments@, s.position)
            + arguments_issues(fs, arguments@, arguments@.len() as int),
        Statement::Declaration { value, .. } => match value {
            Some(v) => expression_issues(fs, v),
            None => seq![],
        },
        Statement::Assignment { value, .. } => expression_issues(fs, value),
        Statement::Conditional { condition, if_block, else_block } => expression_issues(fs, condition) + statements_issues(
            fs,
            if_block.value.0@,
            if_block.value.0@.len() as int,
        ) + (match else_block {
            Some(b) => statements_issues(fs, b.value.0@, b.value.0@.len() as int),
            None => seq![],
        }),
        Statement::ForLoop { declaration, condition, assignment, block } => (match declaration {
            Some(d) => statement_issues(fs, *d),
            None => seq![],
        }) + expression_issues(fs, condition) + (match assignment {
            Some(a) => statement_issues(fs, *a),
            None => seq![],
        }) + statements_issues(fs, block.value.0@, block.value.0@.len() as int),
        Statement::Switch { expressions, cases } => switch_expressions_issues(
            fs,
            expressions@,
            expressions@.len() as int,
        ) + switch_cases_issues(fs, cases@, cases@.len() as int),
        Statement::Return(value) => match value {
            Some(v) => expression_issues(fs, v),
            None => seq![],
        },
        Statement::Break => seq![],
    }
}

/// The issues of the first `n` statements.
pub open spec fn statements_issues(fs: Seq<Node<FunctionDeclaration>>, stmts: Seq<Node<Statement>>, n: int) -> Seq<Seq<char>>
    decreases stmts, n,
{
    if n <= 0 || n > stmts.len() {
        seq![]
    } else {
        statements_issues(fs, stmts, n - 1) + statement_issues(fs, stmts[n - 1])
    }
}

/// The issues of the first `n` switch expressions.
pub open spec fn switch_expressions_issues(fs: Seq<Node<FunctionDeclaration>>, es: Seq<Node<SwitchExpression>>, n: int) -> Seq<
    Seq<char>,
>
    decreases es, n,
{
    if n <= 0 || n > es.len() {
        seq![]
    } else {
        switch_expressions_issues(fs, es, n - 1) + expression_issues(fs, es[n - 1].value.expression)
    }
}

/// The issues of the first `n` switch cases: each condition, then its block.
pub open spec fn switch_cases_issues(fs: Seq<Node<FunctionDeclaration>>, cases: Seq<Node<SwitchCase>>, n: int) -> Seq<
    Seq<char>,
>
    decreases cases, n,
{
    if n <= 0 || n > cases.len() {
        seq![]
    } else {
        switch_cases_issues(fs, cases, n - 1) + expression_issues(fs, cases[n - 1].value.condition) + statements_issues(
            fs,
            cases[n - 1].value.block.value.0@,
            cases[n - 1].value.block.value.0@.len() as int,
        )
    }
}

/// The issues of the bodies of the first `n` functions.
pub open spec fn functions_issues(fs: Seq<Node<FunctionDeclaration>>, n: int) -> Seq<Seq<char>>
    decreases n,
{
    if n <= 0 || n > fs.len() {
        seq![]
    } else {
        functions_issues(fs, n - 1) + statements_issues(
            fs,
            fs[n - 1].value.block.value.0@,
            fs[n - 1].value.block.value.0@.len() as int,
        )
    }
}

/// The issues of a program: those of its statements, then those of its
/// functions' bodies.
pub open spec fn program_issues(p: Program) -> Seq<Seq<char>> {
    statements_issues(p.functions@, p.statements@, p.statements@.len() as int) + functions_issues(
        p.functions@,
        p.functions@.len() as int,
    )
}

/// The messages of a list of issues.
pub open spec fn messages(errors: Seq<SemanticCheckerIssue>) -> Seq<Seq<char>> {
    errors.map_values(|e: SemanticCheckerIssue| e.message@)
}

/// Walks a program and gathers, without stopping, the issues of its calls.
pub struct SemanticChecker<'a> {
    pub program: &'a Program,
    pub errors: Vec<SemanticCheckerIssue>,
}

impl<'a> SemanticChecker<'a> {
    pub open spec fn program(&self) -> Program {
        *self.program
    }

    pub open spec fn functions(&self) -> Seq<Node<FunctionDeclaration>> {
        self.program().functions@
    }

    /// A checker for `program` that has found nothing yet.
    pub fn new(program: &'a Program) -> (r: Result<Self, SemanticCheckerIssue>)
        ensures
            r matches Ok(c) && c.program() == *program && c.errors@.len() == 0,
    {
        Ok(SemanticChecker { program, errors: Vec::new() })
    }

    /// Checks the whole program: its statements, then the bodies of its
    /// functions, appending one issue per problem found.
    pub fn check(&mut self)
        ensures
            final(self).program() == old(self).program(),
            messages(final(self).errors@) == messages(old(self).errors@) + program_issues(old(self).program()),
    {
        let ghost fs = self.functions();
        let program = self.program;
        let ghost start = messages(self.errors@);
        self.visit_statements(&program.statements);
        let mut i: usize = 0;
        while i < program.functions.len()
            invariant
                self.program() == old(self).program(),
                program == self.program,
                fs == self.functions(),
                i <= program.functions@.len(),
                messages(self.errors@) == start + statements_issues(fs, program.statements@, program.statements@.len() as int)
                    + functions_issues(fs, i as int),
            decreases program.functions@.len() - i,
        {
            let ghost before = messages(self.errors@);
            self.visit_statements(&program.functions[i].value.block.value.0);
            proof {
                assert(messages(self.errors@) =~= start + statements_issues(fs, program.statements@, program.statements@.len() as int)
                    + functions_issues(fs, i + 1));
            }
            i = i + 1;
        }
    }

    fn report(&mut self, message: String)
        ensures
            final(self).program() == old(self).program(),
            messages(final(self).errors@) == messages(old(self).errors@) + seq![message@],
    {
        self.errors.push(SemanticCheckerIssue { message });
        proof {
            assert(messages(self.errors@) =~= messages(old(self).errors@) + seq![message@]);
        }
    }

    fn argument_count_error(name: &String, expected: usize, given: usize, position: Position) -> (s: String)
        ensures
            s@ == argument_count_text(name@, expected as nat, given as nat, position),
    {
        let mut s = String::from_str("Invalid number of arguments for function '");
        s.append(name.as_str());
        s.append("'. Expected ");
        let e = u64_to_string(expected as u64);
        s.append(e.as_str());
        s.append(", given ");
        let g = u64_to_string(given as u64);
        s.append(g.as_str());
        Self::append_at(&mut s, position);
        s
    }

    fn append_at(s: &mut String, position: Position)
        ensures
            final(s)@ == old(s)@ + at_text(position),
    {
        s.append(".\nAt ");
        let place = position.debug_text();
        s.append(place.as_str());
        s.append(".\n");
    }

    /// Appends the issues of one call of `name` with `arguments` at
    /// `position`.
    pub fn check_function_call(&mut self, name: &String, arguments: &Vec<Node<Argument>>, position: Position)
        ensures
            final(self).program() == old(self).program(),
            messages(final(self).errors@) == messages(old(self).errors@) + call_issues(
                old(self).functions(),
                name@,
                arguments@,
                position,
            ),
    {
        let ghost fs = self.functions();
        let ghost start = messages(self.errors@);
        match StdFunction::from_name(name.as_str()) {
            Some(f) => {
                let params = f.params();
                if arguments.len() != params.len() {
                    let s = Self::argument_count_error(name, params.len(), arguments.len(), position);
                    self.report(s);
                }
                let ghost counted = messages(self.errors@);
                let mut i: usize = 0;
                while i < arguments.len()
                    invariant
                        self.program() == old(self).program(),
                        i <= arguments@.len(),
                        messages(self.errors@) == counted + std_reference_issues(name@, arguments@.take(i as int)),
                    decreases arguments@.len() - i,
                {
                    proof {
                        assert(arguments@.take(i + 1).drop_last() =~= arguments@.take(i as int));
                    }
                    if arguments[i].value.passed_by == PassedBy::Reference {
                        let mut s = String::from_str("Parameter in function '");
                        s.append(name.as_str());
                        s.append("' passed by Reference - should be passed by Value");
                        Self::append_at(&mut s, arguments[i].position);
                        self.report(s);
                    }
                    proof {
                        assert(messages(self.errors@) =~= counted + std_reference_issues(name@, arguments@.take(i + 1)));
                    }
                    i = i + 1;
                }
                proof {
                    assert(arguments@.take(arguments@.len() as int) =~= arguments@);
                    assert(messages(self.errors@) =~= start + call_issues(fs, name@, arguments@, position));
                }
            },
            None => {
                let program = self.program;
                let mut k: usize = 0;
                while k < program.functions.len()
                    invariant
                        program == self.program,
                        fs == program.functions@,
                        k <= fs.len(),
                        find_function(fs, name@) == find_function_from(fs, name@, k as int),
                    ensures
                        k <= fs.len(),
                        find_function(fs, name@) == find_function_from(fs, name@, k as int),
                        k < fs.len() ==> fs[k as int].value.identifier.value@ == name@,
                    decreases fs.len() - k,
                {
                    if crate::text::str_equal(program.functions[k].value.identifier.value.as_str(), name.as_str()) {
                        break;
                    }
                    k = k + 1;
                }
                if k == program.functions.len() {
                    let mut s = String::from_str("Use of undeclared function '");
                    s.append(name.as_str());
                    s.append("'");
                    Self::append_at(&mut s, position);
                    self.report(s);
                    return;
                }
                let params = &program.functions[k].value.parameters;
                if arguments.len() != params.len() {
                    let s = Self::argument_count_error(name, params.len(), arguments.len(), position);
                    self.report(s);
                }
                let ghost counted = messages(self.errors@);
                let mut i: usize = 0;
                while i < params.len()
                    invariant
                        self.program() == old(self).program(),
                        i <= params@.len(),
                        messages(self.errors@) == counted + parameters_issues(name@, params@, i as int, arguments@),
                    decreases params@.len() - i,
                {
                    let ghost before = messages(self.errors@);
                    if i < arguments.len() {
                        let arg = &arguments[i];
                        let param = &params[i];
                        if arg.value.passed_by != param.value.passed_by {
                            let mut s = String::from_str("Parameter '");
                            s.append(param.value.identifier.value.as_str());
                            s.append("' in function '");
                            s.append(name.as_str());
                            s.append("' passed by ");
                            s.append(arg.value.passed_by.text());
                            s.append(" - should be passed by ");
                            s.append(param.value.passed_by.text());
                            Self::append_at(&mut s, arg.position);
                            self.report(s);
                        }
                        let ghost mid = messages(self.errors@);
                        let is_variable = match &arg.value.value.value {
                            Expression::Variable(_) => true,
                            _ => false,
                        };
                        if arg.value.passed_by == PassedBy::Reference && !is_variable {
                            let mut s = String::from_str("Parameter '");
                            s.append(param.value.identifier.value.as_str());
                            s.append("' in function '");
                            s.append(name.as_str());
                            s.append("' is passed by Reference. Thus it needs to an identifier, but a complex expression was found");
                            Self::append_at(&mut s, arg.position);
                            self.report(s);
                        }
                    }
                    proof {
                        assert(messages(self.errors@) =~= counted + parameters_issues(name@, params@, i + 1, arguments@));
                    }
                    i = i + 1;
                }
                proof {
                    assert(messages(self.errors@) =~= start + call_issues(fs, name@, arguments@, position));
                }
            },
        }
    }

    /// Appends the issues of the calls in the given arguments.
    fn visit_arguments(&mut self, arguments: &Vec<Node<Argument>>)
        ensures
            final(self).program() == old(self).program(),
            messages(final(self).errors@) == messages(old(self).errors@) + arguments_issues(
                old(self).functions(),
                arguments@,
                arguments@.len() as int,
            ),
        decreases arguments@, 1int,
    {
        let ghost fs = self.functions();
        let ghost start = messages(self.errors@);
        let mut i: usize = 0;
        while i < arguments.len()
            invariant
                self.program() == old(self).program(),
                fs == self.functions(),
                i <= arguments@.len(),
                messages(self.errors@) == start + arguments_issues(fs, arguments@, i as int),
            decreases arguments@.len() - i,
        {
            self.visit_expression(&arguments[i].value.value);
            proof {
                assert(messages(self.errors@) =~= start + arguments_issues(fs, arguments@, i + 1));
            }
            i = i + 1;
        }
    }

    /// Appends the issues of the calls in an expression.
    pub fn visit_expression(&mut self, expression: &Node<Expression>)
        ensures
            final(self).program() == old(self).program(),
            messages(final(self).errors@) == messages(old(self).errors@) + expression_issues(old(self).functions(), *expression),
        decreases *expression, 0int,
    {
        let ghost fs = self.functions();
        let ghost start = messages(self.errors@);
        match &expression.value {
            Expression::FunctionCall { identifier, arguments } => {
                self.check_function_call(&identifier.value, arguments, expression.position);
                self.visit_arguments(arguments);
            },
            Expression::Alternative(l, r) | Expression::Concatenation(l, r) | Expression::Greater(l, r)
            | Expression::GreaterEqual(l, r) | Expression::Less(l, r) | Expression::LessEqual(l, r)
            | Expression::Equal(l, r) | Expression::NotEqual(l, r) | Expression::Addition(l, r)
            | Expression::Subtraction(l, r) | Expression::Multiplication(l, r) | Expression::Division(l, r) => {
                self.visit_expression(l);
                self.visit_expression(r);
            },
            Expression::BooleanNegation(v) | Expression::ArithmeticNegation(v) => {
                self.visit_expression(v);
            },
            Expression::Casting { value, .. } => {
                self.visit_expression(value);
            },
            Expression::Literal(_) | Expression::Variable(_) => {},
        }
        proof {
            assert(messages(self.errors@) =~= start + expression_issues(fs, *expression));
        }
    }

    /// Appends the issues of the calls in a list of statements.
    pub fn visit_statements(&mut self, statements: &Vec<Node<Statement>>)
        ensures
            final(self).program() == old(self).program(),
            messages(final(self).errors@) == messages(old(self).errors@) + statements_issues(
                old(self).functions(),
                statements@,
                statements@.len() as int,
            ),
        decreases statements@, 1int,
    {
        let ghost fs = self.functions();
        let ghost start = messages(self.errors@);
        let mut i: usize = 0;
        while i < statements.len()
            invariant
                self.program() == old(self).program(),
                fs == self.functions(),
                i <= statements@.len(),
                messages(self.errors@) == start + statements_issues(fs, statements@, i as int),
            decreases statements@.len() - i,
        {
            self.visit_statement(&statements[i]);
            proof {
                assert(messages(self.errors@) =~= start + statements_issues(fs, statements@, i + 1));
            }
            i = i + 1;
        }
    }

    /// Appends the issues of the calls in a statement.
    #[verifier::loop_isolation(false)]
    pub fn visit_statement(&mut self, statement: &Node<Statement>)
        ensures
            final(self).program() == old(self).program(),
            messages(final(self).errors@) == messages(old(self).errors@) + statement_issues(old(self).functions(), *statement),
        decreases *statement, 0int,
    {
        let ghost fs = self.functions();
        let ghost start = messages(self.errors@);
        match &statement.value {
            Statement::FunctionCall { identifier, arguments } => {
                self.check_function_call(&identifier.value, arguments, statement.position);
                self.visit_arguments(arguments);
            },
            Statement::Declaration { value, .. } => {
                if let Some(v) = value {
                    self.visit_expression(v);
                }
            },
            Statement::Assignment { value, .. } => {
                self.visit_expression(value);
            },
            Statement::Conditional { condition, if_block, else_block } => {
                self.visit_expression(condition);
                self.visit_statements(&if_block.value.0);
                if let Some(b) = else_block {
                    self.visit_statements(&b.value.0);
                }
            },
            Statement::ForLoop { declaration, condition, assignment, block } => {
                if let Some(d) = declaration {
                    self.visit_statement(d);
                }
                self.visit_expression(condition);
                if let Some(a) = assignment {
                    self.visit_statement(a);
                }
                self.visit_statements(&block.value.0);
            },
            Statement::Switch { expressions, cases } => {
                let ghost s0 = messages(self.errors@);
                let mut i: usize = 0;
                while i < expressions.len()
                    invariant
                        self.program() == old(self).program(),
                        fs == self.functions(),
                        i <= expressions@.len(),
                        messages(self.errors@) == s0 + switch_expressions_issues(fs, expressions@, i as int),
                    decreases expressions@.len() - i,
                {
                    self.visit_expression(&expressions[i].value.expression);
                    proof {
                        assert(messages(self.errors@) =~= s0 + switch_expressions_issues(fs, expressions@, i + 1));
                    }
                    i = i + 1;
                }
                let ghost s1 = messages(self.errors@);
                let mut j: usize = 0;
                while j < cases.len()
                    invariant
                        self.program() == old(self).program(),
                        fs == self.functions(),
                        j <= cases@.len(),
                        messages(self.errors@) == s1 + switch_cases_issues(fs, cases@, j as int),
                    decreases cases@.len() - j,
                {
                    self.visit_expression(&cases[j].value.condition);
                    self.visit_statements(&cases[j].value.block.value.0);
                    proof {
                        assert(messages(self.errors@) =~= s1 + switch_cases_issues(fs, cases@, j + 1));
                    }
                    j = j + 1;
                }
            },
            Statement::Return(value) => {
                if let Some(v) = value {
                    self.visit_expression(v);
                }
            },
            Statement::Break => {},
        }
        proof {
            assert(messages(self.errors@) =~= start + statement_issues(fs, *statement));
        }
    }
}

/// `x` is among the issues of `a + b` when it is among those of `a` or `b`.
proof fn lemma_contains_concat(a: Seq<Seq<char>>, b: Seq<Seq<char>>, x: Seq<char>)
    requires
        a.contains(x) || b.contains(x),
    ensures
        (a + b).contains(x),
{
    if a.contains(x) {
        let i = choose|i: int| 0 <= i < a.len() && a[i] == x;
        assert((a + b)[i] == x);
    } else {
        let i = choose|i: int| 0 <= i < b.len() && b[i] == x;
        assert((a + b)[a.len() + i] == x);
    }
}

/// The first function called `name` from the `k`th on is the `j`th when
/// none between them has that name.
proof fn lemma_find_function_from(fs: Seq<Node<FunctionDeclaration>>, name: Seq<char>, k: int, j: int)
    requires
        0 <= k <= j < fs.len(),
        fs[j].value.identifier.value@ == name,
        forall|m: int| k <= m < j ==> (#[trigger] fs[m]).value.identifier.value@ != name,
    ensures
        find_function_from(fs, name, k) == Some(j),
    decreases j - k,
{
    if k < j {
        lemma_find_function_from(fs, name, k + 1, j);
    }
}

/// Every issue of the argument for the `k`th parameter is among the issues
/// of the arguments for the first `n` parameters, `k < n`.
proof fn lemma_parameter_issue_kept(name: Seq<char>, params: Seq<Node<Parameter>>, n: int, k: int, args: Seq<Node<Argument>>, x: Seq<char>)
    requires
        0 <= k < n,
        parameter_issues(name, params[k], k, args).contains(x),
    ensures
        parameters_issues(name, params, n, args).contains(x),
    decreases n,
{
    if k < n - 1 {
        lemma_parameter_issue_kept(name, params, n - 1, k, args, x);
    }
    lemma_contains_concat(parameters_issues(name, params, n - 1, args), parameter_issues(name, params[n - 1], n - 1, args), x);
}

/// Every issue of the `i`th statement is among the issues of the first `n`
/// statements, `i < n`.
proof fn lemma_statement_issue_kept(fs: Seq<Node<FunctionDeclaration>>, stmts: Seq<Node<Statement>>, n: int, i: int, x: Seq<char>)
    requires
        0 <= i < n <= stmts.len(),
        statement_issues(fs, stmts[i]).contains(x),
    ensures
        statements_issues(fs, stmts, n).contains(x),
    decreases n,
{
    if i < n - 1 {
        lemma_statement_issue_kept(fs, stmts, n - 1, i, x);
    }
    lemma_contains_concat(statements_issues(fs, stmts, n - 1), statement_issues(fs, stmts[n - 1]), x);
}

/// A statement that calls the user function `fs[j]` (the first of that
/// name, which no built-in has) and passes its `k`th argument in another
/// way than the `k`th parameter expects, by value where a reference is
/// expected or the other way round, is reported with the mismatch.
proof fn lemma_call_mismatch_reported(fs: Seq<Node<FunctionDeclaration>>, s: Node<Statement>, j: int, k: int)
    requires
        s.value matches Statement::FunctionCall { identifier, arguments } && std_function_named(identifier.value@) is None && 0 <= j
            < fs.len() && fs[j].value.identifier.value@ == identifier.value@ && (forall|m: int|
            0 <= m < j ==> (#[trigger] fs[m]).value.identifier.value@ != identifier.value@) && 0 <= k < arguments@.len() && k
            < fs[j].value.parameters@.len() && arguments@[k].value.passed_by != fs[j].value.parameters@[k].value.passed_by,
    ensures
        s.value matches Statement::FunctionCall { identifier, arguments } && statement_issues(fs, s).contains(
            passed_by_mismatch_text(
                fs[j].value.parameters@[k].value.identifier.value@,
                identifier.value@,
                arguments@[k].value.passed_by,
                fs[j].value.parameters@[k].value.passed_by,
                arguments@[k].position,
            ),
        ),
{
    if let Statement::FunctionCall { identifier, arguments } = s.value {
        let name = identifier.value@;
        let args = arguments@;
        let params = fs[j].value.parameters@;
        let x = passed_by_mismatch_text(params[k].value.identifier.value@, name, args[k].value.passed_by, params[k].value.passed_by, args[k].position);
        lemma_find_function_from(fs, name, 0, j);
        assert(parameter_issues(name, params[k], k, args)[0] == x);
        lemma_parameter_issue_kept(name, params, params.len() as int, k, args, x);
        let count: Seq<Seq<char>> = if args.len() != params.len() {
            seq![argument_count_text(name, params.len(), args.len(), s.position)]
        } else {
            seq![]
        };
        lemma_contains_concat(count, parameters_issues(name, params, params.len() as int, args), x);
        assert(call_issues(fs, name, args, s.position) == count + parameters_issues(name, params, params.len() as int, args));
        lemma_contains_concat(call_issues(fs, name, args, s.position), arguments_issues(fs, args, args.len() as int), x);
    }
}

/// The statements of the program (`body < 0`) or of the body of function
/// `body`.
pub open spec fn statements_of(p: Program, body: int) -> Seq<Node<Statement>> {
    if body < 0 {
        p.statements@
    } else {
        p.functions@[body].value.block.value.0@
    }
}

/// Every issue of a statement of the program, or of a function's body, is
/// among the issues of the program.
proof fn lemma_statement_reported(p: Program, body: int, i: int, x: Seq<char>)
    requires
        -1 <= body < p.functions@.len(),
        0 <= i < statements_of(p, body).len(),
        statement_issues(p.functions@, statements_of(p, body)[i]).contains(x),
    ensures
        program_issues(p).contains(x),
{
    let fs = p.functions@;
    let stmts = statements_of(p, body);
    lemma_statement_issue_kept(fs, stmts, stmts.len() as int, i, x);
    if body >= 0 {
        lemma_functions_issue_kept(fs, fs.len() as int, body, x);
    }
    lemma_contains_concat(statements_issues(fs, p.statements@, p.statements@.len() as int), functions_issues(fs, fs.len() as int), x);
}

/// A call of a user function that passes an argument in another way than
/// its parameter expects (by value where a reference is expected, or by
/// reference where a value is expected) is reported by the check of the
/// program, naming the parameter, the function, both ways and the
/// argument's place; whether the call is a statement of the program or of
/// a function's body.
pub proof fn law_passed_by_mismatch_reported(p: Program, body: int, i: int, j: int, k: int)
    requires
        -1 <= body < p.functions@.len(),
        0 <= i < statements_of(p, body).len(),
        statements_of(p, body)[i].value matches Statement::FunctionCall { identifier, arguments } && std_function_named(identifier.value@)
            is None && 0 <= j < p.functions@.len() && p.functions@[j].value.identifier.value@ == identifier.value@ && (forall|m: int|
            0 <= m < j ==> (#[trigger] p.functions@[m]).value.identifier.value@ != identifier.value@) && 0 <= k < arguments@.len() && k
            < p.functions@[j].value.parameters@.len() && arguments@[k].value.passed_by != p.functions@[j].value.parameters@[k].value.passed_by,
    ensures
        statements_of(p, body)[i].value matches Statement::FunctionCall { identifier, arguments } && program_issues(p).contains(
            passed_by_mismatch_text(
                p.functions@[j].value.parameters@[k].value.identifier.value@,
                identifier.value@,
                arguments@[k].value.passed_by,
                p.functions@[j].value.parameters@[k].value.passed_by,
                arguments@[k].position,
            ),
        ),
{
    let fs = p.functions@;
    let st = statements_of(p, body)[i];
    lemma_call_mismatch_reported(fs, st, j, k);
    if let Statement::FunctionCall { identifier, arguments } = st.value {
        lemma_statement_reported(
            p,
            body,
            i,
            passed_by_mismatch_text(
                fs[j].value.parameters@[k].value.identifier.value@,
                identifier.value@,
                arguments@[k].value.passed_by,
                fs[j].value.parameters@[k].value.passed_by,
                arguments@[k].position,
            ),
        );
    }
}

/// A call of a name that is neither a built-in nor any user function is
/// reported as a use of an undeclared function, at the call's place.
pub proof fn law_undeclared_call_reported(p: Program, body: int, i: int)
    requires
        -1 <= body < p.functions@.len(),
        0 <= i < statements_of(p, body).len(),
        statements_of(p, body)[i].value matches Statement::FunctionCall { identifier, .. } && std_function_named(identifier.value@) is None
            && (forall|m: int| 0 <= m < p.functions@.len() ==> (#[trigger] p.functions@[m]).value.identifier.value@ != identifier.value@),
    ensures
        statements_of(p, body)[i].value matches Statement::FunctionCall { identifier, .. } && program_issues(p).contains(
            undeclared_text(identifier.value@, statements_of(p, body)[i].position),
        ),
{
    let fs = p.functions@;
    let st = statements_of(p, body)[i];
    if let Statement::FunctionCall { identifier, arguments } = st.value {
        let name = identifier.value@;
        lemma_find_function_none(fs, name, 0);
        let x = undeclared_text(name, st.position);
        assert(call_issues(fs, name, arguments@, st.position)[0] == x);
        lemma_contains_concat(call_issues(fs, name, arguments@, st.position), arguments_issues(fs, arguments@, arguments@.len() as int), x);
        lemma_statement_reported(p, body, i, x);
    }
}

/// A call of a user function with another number of arguments than it has
/// parameters is reported with both numbers, at the call's place.
pub proof fn law_argument_count_reported(p: Program, body: int, i: int, j: int)
    requires
        -1 <= body < p.functions@.len(),
        0 <= i < statements_of(p, body).len(),
        statements_of(p, body)[i].value matches Statement::FunctionCall { identifier, arguments } && std_function_named(identifier.value@)
            is None && 0 <= j < p.functions@.len() && p.functions@[j].value.identifier.value@ == identifier.value@ && (forall|m: int|
            0 <= m < j ==> (#[trigger] p.functions@[m]).value.identifier.value@ != identifier.value@) && arguments@.len()
            != p.functions@[j].value.parameters@.len(),
    ensures
        statements_of(p, body)[i].value matches Statement::FunctionCall { identifier, arguments } && program_issues(p).contains(
            argument_count_text(identifier.value@, p.functions@[j].value.parameters@.len(), arguments@.len(), statements_of(p, body)[i].position),
        ),
{
    let fs = p.functions@;
    let st = statements_of(p, body)[i];
    if let Statement::FunctionCall { identifier, arguments } = st.value {
        let name = identifier.value@;
        let args = arguments@;
        let params = fs[j].value.parameters@;
        lemma_find_function_from(fs, name, 0, j);
        let x = argument_count_text(name, params.len(), args.len(), st.position);
        assert(call_issues(fs, name, args, st.position)[0] == x);
        lemma_contains_concat(call_issues(fs, name, args, st.position), arguments_issues(fs, args, args.len() as int), x);
        lemma_statement_reported(p, body, i, x);
    }
}

/// An argument passed by reference to a built-in function is reported, at
/// the argument's place.
pub proof fn law_reference_to_builtin_reported(p: Program, body: int, i: int, k: int)
    requires
        -1 <= body < p.functions@.len(),
        0 <= i < statements_of(p, body).len(),
        statements_of(p, body)[i].value matches Statement::FunctionCall { identifier, arguments } && std_function_named(identifier.value@)
            is Some && 0 <= k < arguments@.len() && arguments@[k].value.passed_by == PassedBy::Reference,
    ensures
        statements_of(p, body)[i].value matches Statement::FunctionCall { identifier, arguments } && program_issues(p).contains(
            std_reference_text(identifier.value@, arguments@[k].position),
        ),
{
    let fs = p.functions@;
    let st = statements_of(p, body)[i];
    if let Statement::FunctionCall { identifier, arguments } = st.value {
        let name = identifier.value@;
        let args = arguments@;
        let x = std_reference_text(name, args[k].position);
        lemma_std_reference_kept(name, args, args.len() as int, k);
        assert(args.take(args.len() as int) =~= args);
        let f = std_function_named(name)->0;
        let count: Seq<Seq<char>> = if args.len() != std_params(f).len() {
            seq![argument_count_text(name, std_params(f).len(), args.len(), st.position)]
        } else {
            seq![]
        };
        lemma_contains_concat(count, std_reference_issues(name, args), x);
        assert(call_issues(fs, name, args, st.position) == count + std_reference_issues(name, args));
        lemma_contains_concat(call_issues(fs, name, args, st.position), arguments_issues(fs, args, args.len() as int), x);
        lemma_statement_reported(p, body, i, x);
    }
}

/// An argument passed by reference to a user function's parameter that is
/// not a bare variable (an expression such as `a + 1`) is reported, naming
/// the parameter and the function, at the argument's place.
pub proof fn law_complex_reference_reported(p: Program, body: int, i: int, j: int, k: int)
    requires
        -1 <= body < p.functions@.len(),
        0 <= i < statements_of(p, body).len(),
        statements_of(p, body)[i].value matches Statement::FunctionCall { identifier, arguments } && std_function_named(identifier.value@)
            is None && 0 <= j < p.functions@.len() && p.functions@[j].value.identifier.value@ == identifier.value@ && (forall|m: int|
            0 <= m < j ==> (#[trigger] p.functions@[m]).value.identifier.value@ != identifier.value@) && 0 <= k < arguments@.len() && k
            < p.functions@[j].value.parameters@.len() && arguments@[k].value.passed_by == PassedBy::Reference
            && !(arguments@[k].value.value.value is Variable),
    ensures
        statements_of(p, body)[i].value matches Statement::FunctionCall { identifier, arguments } && program_issues(p).contains(
            complex_reference_text(p.functions@[j].value.parameters@[k].value.identifier.value@, identifier.value@, arguments@[k].position),
        ),
{
    let fs = p.functions@;
    let st = statements_of(p, body)[i];
    if let Statement::FunctionCall { identifier, arguments } = st.value {
        let name = identifier.value@;
        let args = arguments@;
        let params = fs[j].value.parameters@;
        let x = complex_reference_text(params[k].value.identifier.value@, name, args[k].position);
        lemma_find_function_from(fs, name, 0, j);
        let mismatch: Seq<Seq<char>> = if args[k].value.passed_by != params[k].value.passed_by {
            seq![passed_by_mismatch_text(params[k].value.identifier.value@, name, args[k].value.passed_by, params[k].value.passed_by, args[k].position)]
        } else {
            seq![]
        };
        let complex: Seq<Seq<char>> = seq![x];
        assert(complex[0] == x);
        lemma_contains_concat(mismatch, complex, x);
        assert(parameter_issues(name, params[k], k, args) == mismatch + complex);
        lemma_parameter_issue_kept(name, params, params.len() as int, k, args, x);
        let count: Seq<Seq<char>> = if args.len() != params.len() {
            seq![argument_count_text(name, params.len(), args.len(), st.position)]
        } else {
            seq![]
        };
        lemma_contains_concat(count, parameters_issues(name, params, params.len() as int, args), x);
        assert(call_issues(fs, name, args, st.position) == count + parameters_issues(name, params, params.len() as int, args));
        lemma_contains_concat(call_issues(fs, name, args, st.position), arguments_issues(fs, args, args.len() as int), x);
        lemma_statement_reported(p, body, i, x);
    }
}

/// A call of a user function whose arguments are literals or variables
/// (variables where passed by reference), as many as it has parameters,
/// each passed the way its parameter expects, raises no issue at all.
pub proof fn law_fitting_call_not_reported(fs: Seq<Node<FunctionDeclaration>>, s: Node<Statement>, j: int)
    requires
        s.value matches Statement::FunctionCall { identifier, arguments } && std_function_named(identifier.value@) is None && 0 <= j
            < fs.len() && fs[j].value.identifier.value@ == identifier.value@ && (forall|m: int|
            0 <= m < j ==> (#[trigger] fs[m]).value.identifier.value@ != identifier.value@) && arguments@.len()
            == fs[j].value.parameters@.len() && (forall|k: int|
            0 <= k < arguments@.len() ==> (#[trigger] arguments@[k]).value.passed_by == fs[j].value.parameters@[k].value.passed_by && (
            arguments@[k].value.value.value is Variable || arguments@[k].value.value.value is Literal) && (arguments@[k].value.passed_by
            == PassedBy::Reference ==> arguments@[k].value.value.value is Variable)),
    ensures
        statement_issues(fs, s) == Seq::<Seq<char>>::empty(),
{
    if let Statement::FunctionCall { identifier, arguments } = s.value {
        let name = identifier.value@;
        let args = arguments@;
        let params = fs[j].value.parameters@;
        lemma_find_function_from(fs, name, 0, j);
        lemma_fitting_parameters(name, params, params.len() as int, args);
        lemma_plain_arguments(fs, args, args.len() as int);
        assert(call_issues(fs, name, args, s.position) =~= Seq::<Seq<char>>::empty());
        assert(statement_issues(fs, s) =~= Seq::<Seq<char>>::empty());
    }
}

/// Arguments that fit their parameters raise no issue.
proof fn lemma_fitting_parameters(name: Seq<char>, params: Seq<Node<Parameter>>, n: int, args: Seq<Node<Argument>>)
    requires
        n <= params.len(),
        args.len() == params.len(),
        forall|k: int|
            0 <= k < args.len() ==> (#[trigger] args[k]).value.passed_by == params[k].value.passed_by && (args[k].value.value.value is Variable
                || args[k].value.value.value is Literal) && (args[k].value.passed_by == PassedBy::Reference ==> args[k].value.value.value is Variable),
    ensures
        parameters_issues(name, params, n, args) == Seq::<Seq<char>>::empty(),
    decreases n,
{
    if n > 0 {
        lemma_fitting_parameters(name, params, n - 1, args);
        assert(args[n - 1].value.passed_by == params[n - 1].value.passed_by);
        assert(parameter_issues(name, params[n - 1], n - 1, args) =~= Seq::<Seq<char>>::empty());
        assert(parameters_issues(name, params, n, args) =~= Seq::<Seq<char>>::empty());
    }
}

/// Literals and variables as arguments call nothing.
proof fn lemma_plain_arguments(fs: Seq<Node<FunctionDeclaration>>, args: Seq<Node<Argument>>, n: int)
    requires
        n <= args.len(),
        forall|k: int| 0 <= k < args.len() ==> ((#[trigger] args[k]).value.value.value is Variable || args[k].value.value.value is Literal),
    ensures
        arguments_issues(fs, args, n) == Seq::<Seq<char>>::empty(),
    decreases n,
{
    if n > 0 {
        lemma_plain_arguments(fs, args, n - 1);
        assert(args[n - 1].value.value.value is Variable || args[n - 1].value.value.value is Literal);
        assert(expression_issues(fs, args[n - 1].value.value) =~= Seq::<Seq<char>>::empty());
        assert(arguments_issues(fs, args, n) =~= Seq::<Seq<char>>::empty());
    }
}

/// No function from the `k`th on is called `name`, so none is found.
proof fn lemma_find_function_none(fs: Seq<Node<FunctionDeclaration>>, name: Seq<char>, k: int)
    requires
        0 <= k,
        forall|m: int| 0 <= m < fs.len() ==> (#[trigger] fs[m]).value.identifier.value@ != name,
    ensures
        find_function_from(fs, name, k) is None,
    decreases fs.len() - k,
{
    if k < fs.len() {
        lemma_find_function_none(fs, name, k + 1);
    }
}

/// The reference issue of the `k`th argument of a built-in's call is among
/// those of its first `n` arguments, `k < n`.
proof fn lemma_std_reference_kept(name: Seq<char>, args: Seq<Node<Argument>>, n: int, k: int)
    requires
        0 <= k < n <= args.len(),
        args[k].value.passed_by == PassedBy::Reference,
    ensures
        std_reference_issues(name, args.take(n)).contains(std_reference_text(name, args[k].position)),
    decreases n,
{
    let x = std_reference_text(name, args[k].position);
    let t = args.take(n);
    assert(t.drop_last() =~= args.take(n - 1));
    if k < n - 1 {
        lemma_std_reference_kept(name, args, n - 1, k);
        lemma_contains_concat(std_reference_issues(name, t.drop_last()), if t.last().value.passed_by == PassedBy::Reference {
            seq![std_reference_text(name, t.last().position)]
        } else {
            seq![]
        }, x);
    } else {
        let last: Seq<Seq<char>> = seq![std_reference_text(name, t.last().position)];
        assert(last[0] == x);
        lemma_contains_concat(std_reference_issues(name, t.drop_last()), last, x);
    }
}

/// Every issue of the body of the `b`th function is among the issues of
/// the bodies of the first `n` functions, `b < n`.
proof fn lemma_functions_issue_kept(fs: Seq<Node<FunctionDeclaration>>, n: int, b: int, x: Seq<char>)
    requires
        0 <= b < n <= fs.len(),
        statements_issues(fs, fs[b].value.block.value.0@, fs[b].value.block.value.0@.len() as int).contains(x),
    ensures
        functions_issues(fs, n).contains(x),
    decreases n,
{
    if b < n - 1 {
        lemma_functions_issue_kept(fs, n - 1, b, x);
    }
    lemma_contains_concat(
        functions_issues(fs, n - 1),
        statements_issues(fs, fs[n - 1].value.block.value.0@, fs[n - 1].value.block.value.0@.len() as int),
        x,
    );
}

} // verus!
