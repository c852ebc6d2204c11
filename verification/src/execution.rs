//! What running statements does: a relation between the state before and
//! the state after a run that ends without an error, for statements whose
//! expressions call no function and that hold no `return`.
use vstd::prelude::*;

use crate::ast::{Expression, Node, Parameter, Statement, SwitchCase, SwitchExpression};
use crate::interpreter::{call_free, evaluates, expression_size, CallArgument};
use crate::scope_manager::Binding;
use crate::stack::{same_outer_scopes, same_scopes, Stack};
use crate::value::{is_default_value, spec_value_type, Value};

verus! {

/// The part of the interpreter a run of statements changes: the variables,
/// whether a `break` is pending, and the steps left.
pub type Run = (Stack, bool, nat);

/// Holds of every state; it names the intermediate states of a run for the
/// prover.
pub open spec fn reached(m: Run) -> bool {
    true
}

/// Holds of every count; it names how many cases ran for the prover.
pub open spec fn counted(n: nat) -> bool {
    true
}

/// `t` is `s` with a new, empty innermost scope.
pub open spec fn opens(s: Stack, t: Stack) -> bool {
    &&& t.frame_count() == s.frame_count()
    &&& t.frames().drop_last() == s.frames().drop_last()
    &&& t.top().scope_count() == s.top().scope_count() + 1
    &&& t.top().scope_list().drop_last() == s.top().scope_list()
    &&& t.top().cells() == s.top().cells()
    &&& forall|n: Seq<char>| #[trigger] t.binding_of(n) == s.binding_of(n)
    &&& forall|n: Seq<char>| #[trigger] t.top().outer_binding_of(n) == s.binding_of(n)
}

/// `t` is `s` with its innermost scope closed: its names forgotten and the
/// cells made since it opened freed.
pub open spec fn closes(s: Stack, t: Stack) -> bool {
    &&& t.frame_count() == s.frame_count()
    &&& t.frames().drop_last() == s.frames().drop_last()
    &&& t.top().scope_list() == s.top().scope_list().drop_last()
    &&& t.top().cells() == s.top().cells().take(t.top().cells().len() as int)
    &&& t.top().cells().len() <= s.top().cells().len()
    &&& forall|n: Seq<char>| #[trigger] t.binding_of(n) == s.top().outer_binding_of(n)
    &&& forall|n: Seq<char>| #[trigger] t.binding_of(n) matches Some(Binding::Local(i)) ==> i < t.top().cells().len()
}

/// `t` is `s` with a call's frame on top, whose one scope holds the first
/// `args.len()` parameters: each names a new cell holding the value passed,
/// or the caller's cell passed by reference.
pub open spec fn binds(s: Stack, params: Seq<Node<Parameter>>, args: Seq<CallArgument>, t: Stack) -> bool {
    &&& t.frame_count() == s.frame_count() + 1
    &&& t.frames().drop_last() == s.frames()
    &&& t.top().scope_count() == 1
    &&& forall|n: Seq<char>| #[trigger]
        t.binding_of(n) is Some ==> exists|j: int| 0 <= j < args.len() && n == (#[trigger] params[j]).value.identifier.value@
    &&& forall|k: int|
        0 <= k < args.len() ==> match #[trigger] args[k] {
            CallArgument::Value(v) => t.reference_of(params[k].value.identifier.value@) matches Some((g, i)) && g == s.frame_count() && t.cell(
                g,
                i,
            ) == v,
            CallArgument::Reference(f, c) => t.reference_of(params[k].value.identifier.value@) == Some((f as int, c as int)),
        }
}

/// `t` is `s` with `name` declared in its innermost scope, holding `v` in a
/// new cell.
pub open spec fn declares(s: Stack, name: Seq<char>, v: Value, t: Stack) -> bool {
    &&& t.frames().drop_last() == s.frames().drop_last()
    &&& t.frame_count() == s.frame_count()
    &&& t.top().scope_count() == s.top().scope_count()
    &&& same_outer_scopes(s, t)
    &&& s.binding_of(name) is None
    &&& t.top().cells() == s.top().cells().push(v)
    &&& t.binding_of(name) == Some(Binding::Local(s.top().cells().len() as usize))
    &&& t.value_of(name) == Some(v)
    &&& forall|o: Seq<char>| o != name ==> #[trigger] t.binding_of(o) == s.binding_of(o)
    &&& forall|o: Seq<char>| #[trigger] t.top().outer_binding_of(o) == s.top().outer_binding_of(o)
}

/// `t` is `s` with `v`, of the type it held, written to the cell `name`
/// denotes.
pub open spec fn assigns(s: Stack, name: Seq<char>, v: Value, t: Stack) -> bool {
    &&& t.frame_count() == s.frame_count()
    &&& same_scopes(s, t)
    &&& s.reference_of(name) matches Some((f, i)) && spec_value_type(v) == spec_value_type(s.cell(f, i)) && t.frames() == s.frames().update(
        f,
        t.frames()[f],
    ) && t.frames()[f].cells() == s.frames()[f].cells().update(i, v)
    &&& t.value_of(name) == Some(v)
}

/// The statement calls no function and holds no `return`.
pub open spec fn plain(s: Node<Statement>) -> bool
    decreases s,
{
    match s.value {
        Statement::Declaration { value, .. } => value matches Some(e) ==> call_free(e),
        Statement::Assignment { value, .. } => call_free(value),
        Statement::Conditional { condition, if_block, else_block } => call_free(condition) && (forall|i: int|
            0 <= i < if_block.value.0@.len() ==> plain(#[trigger] if_block.value.0@[i])) && match else_block {
            Some(b) => forall|i: int| 0 <= i < b.value.0@.len() ==> plain(#[trigger] b.value.0@[i]),
            None => true,
        },
        Statement::ForLoop { declaration, condition, assignment, block } => call_free(condition) && match declaration {
            Some(d) => plain(*d),
            None => true,
        } && match assignment {
            Some(x) => plain(*x),
            None => true,
        } && (forall|i: int| 0 <= i < block.value.0@.len() ==> plain(#[trigger] block.value.0@[i])),
        Statement::Switch { expressions, cases } => (forall|i: int|
            0 <= i < expressions@.len() ==> call_free(#[trigger] expressions@[i].value.expression)) && (forall|j: int|
            0 <= j < cases@.len() ==> call_free((#[trigger] cases@[j]).value.condition) && (forall|i: int|
                0 <= i < cases@[j].value.block.value.0@.len() ==> plain(#[trigger] cases@[j].value.block.value.0@[i]))),
        Statement::Break => true,
        _ => false,
    }
}

/// The parts of a `for` loop are plain.
pub open spec fn plain_for(
    declaration: Option<Box<Node<Statement>>>,
    condition: Node<Expression>,
    assignment: Option<Box<Node<Statement>>>,
    block: Seq<Node<Statement>>,
) -> bool {
    &&& call_free(condition)
    &&& declaration matches Some(d) ==> plain(*d)
    &&& assignment matches Some(x) ==> plain(*x)
    &&& all_plain(block)
}

/// The expressions and cases of a switch are plain.
pub open spec fn plain_switch(expressions: Seq<Node<SwitchExpression>>, cases: Seq<Node<SwitchCase>>) -> bool {
    &&& forall|i: int| 0 <= i < expressions.len() ==> call_free(#[trigger] expressions[i].value.expression)
    &&& forall|j: int|
        0 <= j < cases.len() ==> call_free((#[trigger] cases[j]).value.condition) && all_plain(cases[j].value.block.value.0@)
}

/// Every statement of `ss` is plain.
pub open spec fn all_plain(ss: Seq<Node<Statement>>) -> bool {
    forall|i: int| 0 <= i < ss.len() ==> plain(#[trigger] ss[i])
}

/// Running the statement `s` from `a` ends, with no error, in `b`. A
/// statement takes a step first; a block takes one and runs in a scope of
/// its own; a `break` stops the block it stands in and is consumed by the
/// loop or switch around it.
pub open spec fn runs(s: Node<Statement>, a: Run, b: Run) -> bool
    decreases a.2, 1nat, 0nat,
{
    &&& a.2 > 0
    &&& b.2 < a.2
    &&& match s.value {
        Statement::Declaration { var_type, identifier, value } => b.1 == a.1 && exists|v: Value|
            #[trigger] declares(a.0, identifier.value@, v, b.0) && spec_value_type(v) == var_type.value && match value {
                None => is_default_value(var_type.value, v),
                Some(e) => evaluates(e, a.0, Ok(v)),
            },
        Statement::Assignment { identifier, value } => b.1 == a.1 && exists|v: Value|
            #[trigger] assigns(a.0, identifier.value@, v, b.0) && evaluates(value, a.0, Ok(v)),
        Statement::Conditional { condition, if_block, else_block } => exists|c: bool|
            #[trigger] evaluates(condition, a.0, Ok(Value::Bool(c))) && a.2 >= 1 + expression_size(condition) && {
                let m: Run = (a.0, a.1, (a.2 - 1 - expression_size(condition)) as nat);
                if c {
                    block_runs(if_block.value.0@, m, b)
                } else {
                    match else_block {
                        Some(eb) => block_runs(eb.value.0@, m, b),
                        None => b.0 == a.0 && b.1 == a.1,
                    }
                }
            },
        Statement::ForLoop { declaration, condition, assignment, block } => for_runs(
            declaration,
            condition,
            assignment,
            block.value.0@,
            (a.0, a.1, (a.2 - 1) as nat),
            b,
        ),
        Statement::Switch { expressions, cases } => switch_runs(expressions@, cases@, (a.0, a.1, (a.2 - 1) as nat), b),
        Statement::Break => b.0 == a.0 && b.1,
        _ => false,
    }
}

/// A `for` loop run from `a`, after its step: in a scope of its own, its
/// declaration, then its turns.
pub open spec fn for_runs(
    declaration: Option<Box<Node<Statement>>>,
    condition: Node<Expression>,
    assignment: Option<Box<Node<Statement>>>,
    block: Seq<Node<Statement>>,
    a: Run,
    b: Run,
) -> bool
    decreases a.2, 4nat, 0nat,
{
    exists|s1: Stack, m0: Run, m1: Run|
        #![trigger opens(a.0, s1), reached(m0), reached(m1)]
        opens(a.0, s1) && m0.2 <= a.2 && m1.2 <= m0.2 && match declaration {
            None => m0 == (s1, a.1, a.2),
            Some(d) => runs(*d, (s1, a.1, a.2), m0),
        } && loop_runs(condition, assignment, block, m0, m1) && closes(m1.0, b.0) && b.1 == m1.1 && b.2 == m1.2
}

/// A switch run from `a`, after its step: in a scope of its own, its
/// expressions, then its cases.
pub open spec fn switch_runs(expressions: Seq<Node<SwitchExpression>>, cases: Seq<Node<SwitchCase>>, a: Run, b: Run) -> bool
    decreases a.2, 4nat, 0nat,
{
    exists|s1: Stack, m0: Run, m1: Run|
        #![trigger opens(a.0, s1), reached(m0), reached(m1)]
        opens(a.0, s1) && m0.2 <= a.2 && m1.2 <= m0.2 && expressions_run(expressions, expressions.len(), (s1, a.1, a.2), m0)
            && cases_done(cases, m0, m1) && closes(m1.0, b.0) && b.1 == m1.1 && b.2 == m1.2
}

/// The turns of a `for` loop from `a`, where its condition is evaluated
/// next: while it holds, the block runs, then the assignment, until the
/// condition fails or a `break` ends the loop (and is consumed).
pub open spec fn loop_runs(
    condition: Node<Expression>,
    assignment: Option<Box<Node<Statement>>>,
    block: Seq<Node<Statement>>,
    a: Run,
    b: Run,
) -> bool
    decreases a.2, 0nat, 0nat,
{
    exists|c: bool|
        #[trigger] evaluates(condition, a.0, Ok(Value::Bool(c))) && a.2 >= expression_size(condition) && {
            let m: Run = (a.0, a.1, (a.2 - expression_size(condition)) as nat);
            if !c {
                b == m
            } else {
                m.2 > 0 && exists|m1: Run|
                    #![trigger reached(m1)]
                    m1.2 < a.2 && block_runs(block, (m.0, m.1, (m.2 - 1) as nat), m1) && if m1.1 {
                        b == (m1.0, false, m1.2)
                    } else {
                        match assignment {
                            None => loop_runs(condition, assignment, block, m1, b),
                            Some(x) => exists|m2: Run|
                                #![trigger reached(m2)]
                                m2.2 < a.2 && runs(*x, m1, m2) && loop_runs(condition, assignment, block, m2, b),
                        }
                    }
            }
        }
}

/// A block run from `a`: a step, then its statements in a scope of their
/// own, stopping at a pending `break`.
pub open spec fn block_runs(stmts: Seq<Node<Statement>>, a: Run, b: Run) -> bool
    decreases a.2, 0nat, 0nat,
{
    a.2 > 0 && exists|s1: Stack, m: Run|
        #![trigger opens(a.0, s1), reached(m)]
        opens(a.0, s1) && statements_run(stmts, stmts.len(), (s1, a.1, (a.2 - 1) as nat), m) && closes(m.0, b.0) && b.1 == m.1 && b.2
            == m.2
}

/// The first `n` statements of `stmts` run from `a`, each unless a `break`
/// is pending.
pub open spec fn statements_run(stmts: Seq<Node<Statement>>, n: nat, a: Run, b: Run) -> bool
    decreases a.2, 2nat, n,
{
    if n == 0 {
        b == a
    } else {
        exists|m: Run|
            #![trigger reached(m)]
            m.2 <= a.2 && statements_run(stmts, (n - 1) as nat, a, m) && if m.1 {
                b == m
            } else {
                runs(stmts[n - 1], m, b)
            }
    }
}

/// The first `n` switch expressions evaluated from `a`, each alias declared
/// with the value of its expression.
pub open spec fn expressions_run(es: Seq<Node<SwitchExpression>>, n: nat, a: Run, b: Run) -> bool
    decreases a.2, 2nat, n,
{
    if n == 0 {
        b == a
    } else {
        exists|m: Run| #![trigger reached(m)] expressions_run(es, (n - 1) as nat, a, m) && expression_step(es[n - 1], m, b)
    }
}

/// One switch expression evaluated from `a`: a step, then, if it has an
/// alias, the alias declared with its value.
pub open spec fn expression_step(e: Node<SwitchExpression>, a: Run, b: Run) -> bool {
    &&& a.2 > 0
    &&& b.1 == a.1
    &&& b.2 < a.2
    &&& match e.value.alias {
        None => b.0 == a.0,
        Some(alias) => exists|v: Value| #[trigger] declares(a.0, alias.value@, v, b.0) && evaluates(e.value.expression, a.0, Ok(v)),
    }
}

/// The first `n` cases run from `a`, each after the one before it ended
/// with no `break` pending.
pub open spec fn cases_run(cs: Seq<Node<SwitchCase>>, n: nat, a: Run, b: Run) -> bool
    decreases a.2, 2nat, n,
{
    if n == 0 {
        b == a
    } else {
        exists|m: Run|
            #![trigger reached(m)]
            m.2 <= a.2 && cases_run(cs, (n - 1) as nat, a, m) && (n > 1 ==> !m.1) && case_runs(cs[n - 1], m, b)
    }
}

/// The cases of a switch run from `a`: in order, until one leaves a `break`
/// pending, which is consumed, or none is left.
pub open spec fn cases_done(cs: Seq<Node<SwitchCase>>, a: Run, b: Run) -> bool
    decreases a.2, 3nat, 0nat,
{
    exists|n: nat, m: Run|
        #![trigger counted(n), reached(m)]
        n <= cs.len() && cases_run(cs, n, a, m) && ((n > 0 && m.1 && b == (m.0, false, m.2)) || (n == cs.len() && (n == 0 || !m.1)
            && b == m))
}

/// One case run from `a`: a step, its condition, and its block if the
/// condition holds.
pub open spec fn case_runs(c: Node<SwitchCase>, a: Run, b: Run) -> bool
    decreases a.2, 1nat, 0nat,
{
    a.2 > 0 && exists|v: bool|
        #[trigger] evaluates(c.value.condition, a.0, Ok(Value::Bool(v))) && a.2 >= 1 + expression_size(c.value.condition) && {
            let m: Run = (a.0, a.1, (a.2 - 1 - expression_size(c.value.condition)) as nat);
            if v {
                block_runs(c.value.block.value.0@, m, b)
            } else {
                b == m
            }
        }
}

/// Once a `break` is pending, the statements left do not run.
pub proof fn lemma_statements_stop(stmts: Seq<Node<Statement>>, i: nat, n: nat, a: Run, m: Run)
    requires
        statements_run(stmts, i, a, m),
        m.1,
        m.2 <= a.2,
        i <= n,
    ensures
        statements_run(stmts, n, a, m),
    decreases n - i,
{
    if i < n {
        assert(reached(m));
        assert(statements_run(stmts, i + 1, a, m));
        lemma_statements_stop(stmts, i + 1, n, a, m);
    }
}

} // verus!
