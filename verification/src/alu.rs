//! The operations that expressions apply to values.
use vstd::prelude::*;
use vstd::string::StringExecFns;

use crate::ast::{spec_type_text, Type};
use crate::float::{equal, float_eq, float_is_finite, float_lt, float_neg, is_finite, less, negate, FloatArithmetic};
use crate::issues::ComputationIssue;
use crate::text::{i64_to_string, int_text, law_int_text_parses_back, parse_i64, parse_i64_spec, str_equal};
use crate::value::{spec_value_type, value_debug_text, Value};

verus! {

/// Whether `r` is the error with message `text`.
pub open spec fn is_error(r: Result<Value, ComputationIssue>, text: Seq<char>) -> bool {
    r matches Err(e) && e.message@ == text
}

pub open spec fn mismatch_text(op: Seq<char>, a: Value, b: Value) -> Seq<char> {
    "Cannot perform "@ + op + " between values of type '"@ + spec_type_text(spec_value_type(a)) + "' and '"@
        + spec_type_text(spec_value_type(b)) + "'."@
}

pub open spec fn overflow_text(op: Seq<char>) -> Seq<char> {
    "Overflow occurred when performing "@ + op + " on i64s."@
}

pub open spec fn invalid_float_text(op: Seq<char>) -> Seq<char> {
    "Invalid result when performing "@ + op + " on f64s."@
}

pub open spec fn negation_text(kind: Seq<char>, t: Type) -> Seq<char> {
    "Cannot perform "@ + kind + " negation on type '"@ + spec_type_text(t) + "'."@
}

pub open spec fn cast_text(value_text: Seq<char>, t: Type) -> Seq<char> {
    "Cannot cast '"@ + value_text + "' to '"@ + spec_type_text(t) + "'."@
}

pub open spec fn cast_string_text(s: Seq<char>, target: Seq<char>) -> Seq<char> {
    "Cannot cast String '"@ + s + "' to "@ + target + "."@
}

/// The outcome of an integer operation whose exact result is `exact`, or
/// `None` where it does not fit an `i64`.
pub open spec fn int_outcome(exact: Option<i64>, op: Seq<char>, r: Result<Value, ComputationIssue>) -> bool {
    match exact {
        Some(v) => r == Ok::<Value, ComputationIssue>(Value::I64(v)),
        None => is_error(r, overflow_text(op)),
    }
}

/// The outcome of a float operation: a finite double, or the error that
/// says the result was infinite or NaN.
pub open spec fn float_outcome(op: Seq<char>, r: Result<Value, ComputationIssue>) -> bool {
    ||| (r matches Ok(Value::F64(x)) && float_is_finite(x))
    ||| is_error(r, invalid_float_text(op))
}

/// What a float operation named `op` gives once the float unit has rounded
/// its result to `x`: `x` where it is finite, else the error naming `op`.
pub open spec fn float_result(x: u64, op: Seq<char>, r: Result<Value, ComputationIssue>) -> bool {
    if float_is_finite(x) {
        r == Ok::<Value, ComputationIssue>(Value::F64(x))
    } else {
        is_error(r, invalid_float_text(op))
    }
}

/// What `a + b` gives on two doubles: the float unit's rounded result for
/// exactly `a` and `b`, refused where it is infinite or NaN.
pub open spec fn float_sum_outcome<F: FloatArithmetic>(fl: &F, a: u64, b: u64, r: Result<Value, ComputationIssue>) -> bool {
    exists|x: u64| #[trigger] call_ensures(F::add, (fl, a, b), x) && float_result(x, "addition"@, r)
}

/// What `a - b` gives on two doubles: the float unit's rounded result for
/// exactly `a` and `b`, refused where it is infinite or NaN.
pub open spec fn float_difference_outcome<F: FloatArithmetic>(fl: &F, a: u64, b: u64, r: Result<Value, ComputationIssue>) -> bool {
    exists|x: u64| #[trigger] call_ensures(F::sub, (fl, a, b), x) && float_result(x, "subtraction"@, r)
}

/// What `a * b` gives on two doubles: the float unit's rounded result for
/// exactly `a` and `b`, refused where it is infinite or NaN.
pub open spec fn float_product_outcome<F: FloatArithmetic>(fl: &F, a: u64, b: u64, r: Result<Value, ComputationIssue>) -> bool {
    exists|x: u64| #[trigger] call_ensures(F::mul, (fl, a, b), x) && float_result(x, "multiplication"@, r)
}

/// What `a / b` gives on two doubles: the float unit's rounded result for
/// exactly `a` and `b`, refused where it is infinite or NaN.
pub open spec fn float_quotient_outcome<F: FloatArithmetic>(fl: &F, a: u64, b: u64, r: Result<Value, ComputationIssue>) -> bool {
    exists|x: u64| #[trigger] call_ensures(F::div, (fl, a, b), x) && float_result(x, "division"@, r)
}

/// What a cast that goes through the float unit gives: a double's text, a
/// double from an integer, an integer from a double, or a double read from
/// a string; other casts are left to `cast_outcome`.
pub open spec fn float_cast_outcome<F: FloatArithmetic>(fl: &F, val: Value, to_type: Type, r: Result<Value, ComputationIssue>) -> bool {
    match (val, to_type) {
        (Value::F64(f), Type::Str) => r matches Ok(Value::String(t)) && call_ensures(F::to_text, (fl, f), t),
        (Value::I64(i), Type::F64) => r matches Ok(Value::F64(x)) && call_ensures(F::from_i64, (fl, i), x),
        (Value::F64(f), Type::I64) => r matches Ok(Value::I64(n)) && call_ensures(F::to_i64, (fl, f), n),
        (Value::String(s), Type::F64) => exists|text: &str, p: Option<u64>|
            #[trigger] call_ensures(F::parse, (fl, text), p) && text@ == s@ && match p {
                Some(x) => r == Ok::<Value, ComputationIssue>(Value::F64(x)),
                None => is_error(r, cast_string_text(s@, "f64"@)),
            },
        _ => true,
    }
}

pub open spec fn bool_result(r: Result<Value, ComputationIssue>, b: bool) -> bool {
    r == Ok::<Value, ComputationIssue>(Value::Bool(b))
}

/// What `ALU::cast_to_type` gives for `val` and `to_type`.
pub open spec fn cast_outcome(val: Value, to_type: Type, r: Result<Value, ComputationIssue>) -> bool {
    match (val, to_type) {
        (Value::I64(_), Type::I64) | (Value::F64(_), Type::F64) | (Value::String(_), Type::Str) | (Value::Bool(_), Type::Bool) => r
            == Ok::<Value, ComputationIssue>(val),
        (Value::I64(i), Type::Str) => (r matches Ok(Value::String(s)) && s@ == int_text(i as int)),
        (Value::F64(_), Type::Str) => r matches Ok(Value::String(_)),
        (Value::I64(_), Type::F64) => r matches Ok(Value::F64(_)),
        (Value::F64(_), Type::I64) => r matches Ok(Value::I64(_)),
        (Value::I64(i), Type::Bool) => bool_result(r, i > 0),
        (Value::F64(f), Type::Bool) => bool_result(r, float_lt(0, f)),
        (Value::String(s), Type::I64) => match parse_i64_spec(s@) {
            Some(v) => r == Ok::<Value, ComputationIssue>(Value::I64(v)),
            None => is_error(r, cast_string_text(s@, "i64"@)),
        },
        (Value::String(s), Type::F64) => (r matches Ok(Value::F64(_))) || is_error(
            r,
            cast_string_text(s@, "f64"@),
        ),
        (Value::String(s), Type::Bool) => bool_result(r, s@.len() != 0),
        (Value::F64(_), _) => exists|t: Seq<char>| is_error(r, cast_text("F64("@ + t + ")"@, to_type)),
        _ => is_error(r, cast_text(value_debug_text(val), to_type)),
    }
}

/// What `ALU::boolean_negate` gives for `val`.
pub open spec fn boolean_negate_outcome(val: Value, r: Result<Value, ComputationIssue>) -> bool {
    match val {
        Value::Bool(b) => bool_result(r, !b),
        _ => is_error(r, negation_text("boolean"@, spec_value_type(val))),
    }
}

/// What `ALU::arithmetic_negate` gives for `val`.
pub open spec fn arithmetic_negate_outcome(val: Value, r: Result<Value, ComputationIssue>) -> bool {
    match val {
        Value::I64(i) => int_outcome(if i == i64::MIN { None } else { Some((-i) as i64) }, "arithmetic negation"@, r),
        Value::F64(f) => r == Ok::<Value, ComputationIssue>(Value::F64(float_neg(f))),
        _ => is_error(r, negation_text("arithmetic"@, spec_value_type(val))),
    }
}

/// What `ALU::add` gives for `val1` and `val2`.
pub open spec fn add_outcome(val1: Value, val2: Value, r: Result<Value, ComputationIssue>) -> bool {
    match (val1, val2) {
        (Value::I64(a), Value::I64(b)) => int_outcome(a.checked_add(b), "addition"@, r),
        (Value::F64(_), Value::F64(_)) => float_outcome("addition"@, r),
        (Value::String(a), Value::String(b)) => (r matches Ok(Value::String(s)) && s@ == a@ + b@),
        _ => is_error(r, mismatch_text("addition"@, val1, val2)),
    }
}

/// What `ALU::subtract` gives for `val1` and `val2`.
pub open spec fn subtract_outcome(val1: Value, val2: Value, r: Result<Value, ComputationIssue>) -> bool {
    match (val1, val2) {
        (Value::I64(a), Value::I64(b)) => int_outcome(a.checked_sub(b), "subtraction"@, r),
        (Value::F64(_), Value::F64(_)) => float_outcome("subtraction"@, r),
        _ => is_error(r, mismatch_text("subtraction"@, val1, val2)),
    }
}

/// What `ALU::multiplication` gives for `val1` and `val2`.
pub open spec fn multiplication_outcome(val1: Value, val2: Value, r: Result<Value, ComputationIssue>) -> bool {
    match (val1, val2) {
        (Value::I64(a), Value::I64(b)) => int_outcome(a.checked_mul(b), "multiplication"@, r),
        (Value::F64(_), Value::F64(_)) => float_outcome("multiplication"@, r),
        _ => is_error(r, mismatch_text("multiplication"@, val1, val2)),
    }
}

/// What `ALU::division` gives for `val1` and `val2`.
pub open spec fn division_outcome(val1: Value, val2: Value, r: Result<Value, ComputationIssue>) -> bool {
    match (val1, val2) {
        (Value::I64(a), Value::I64(b)) => int_outcome(a.checked_div(b), "division"@, r),
        (Value::F64(_), Value::F64(_)) => float_outcome("division"@, r),
        _ => is_error(r, mismatch_text("division"@, val1, val2)),
    }
}

/// What `ALU::concatenation` gives for `val1` and `val2`.
pub open spec fn concatenation_outcome(val1: Value, val2: Value, r: Result<Value, ComputationIssue>) -> bool {
    match (val1, val2) {
        (Value::Bool(a), Value::Bool(b)) => bool_result(r, a && b),
        _ => is_error(r, mismatch_text("concatenation"@, val1, val2)),
    }
}

/// What `ALU::alternative` gives for `val1` and `val2`.
pub open spec fn alternative_outcome(val1: Value, val2: Value, r: Result<Value, ComputationIssue>) -> bool {
    match (val1, val2) {
        (Value::Bool(a), Value::Bool(b)) => bool_result(r, a || b),
        _ => is_error(r, mismatch_text("alternative"@, val1, val2)),
    }
}

/// What `ALU::greater` gives for `val1` and `val2`.
pub open spec fn greater_outcome(val1: Value, val2: Value, r: Result<Value, ComputationIssue>) -> bool {
    match (val1, val2) {
        (Value::I64(a), Value::I64(b)) => bool_result(r, a > b),
        (Value::F64(a), Value::F64(b)) => bool_result(r, float_lt(b, a)),
        _ => is_error(r, mismatch_text("greater"@, val1, val2)),
    }
}

/// What `ALU::greater_or_equal` gives for `val1` and `val2`.
pub open spec fn greater_or_equal_outcome(val1: Value, val2: Value, r: Result<Value, ComputationIssue>) -> bool {
    match (val1, val2) {
        (Value::I64(a), Value::I64(b)) => bool_result(r, a >= b),
        (Value::F64(a), Value::F64(b)) => bool_result(r, float_lt(b, a) || float_eq(a, b)),
        _ => is_error(r, mismatch_text("greater or equal"@, val1, val2)),
    }
}

/// What `ALU::less` gives for `val1` and `val2`.
pub open spec fn less_outcome(val1: Value, val2: Value, r: Result<Value, ComputationIssue>) -> bool {
    match (val1, val2) {
        (Value::I64(a), Value::I64(b)) => bool_result(r, a < b),
        (Value::F64(a), Value::F64(b)) => bool_result(r, float_lt(a, b)),
        _ => is_error(r, mismatch_text("less"@, val1, val2)),
    }
}

/// What `ALU::less_or_equal` gives for `val1` and `val2`.
pub open spec fn less_or_equal_outcome(val1: Value, val2: Value, r: Result<Value, ComputationIssue>) -> bool {
    match (val1, val2) {
        (Value::I64(a), Value::I64(b)) => bool_result(r, a <= b),
        (Value::F64(a), Value::F64(b)) => bool_result(r, float_lt(a, b) || float_eq(a, b)),
        _ => is_error(r, mismatch_text("less or equal"@, val1, val2)),
    }
}

/// What `ALU::equal` gives for `val1` and `val2`.
pub open spec fn equal_outcome(val1: Value, val2: Value, r: Result<Value, ComputationIssue>) -> bool {
    match (val1, val2) {
        (Value::I64(a), Value::I64(b)) => bool_result(r, a == b),
        (Value::F64(a), Value::F64(b)) => bool_result(r, float_eq(a, b)),
        (Value::String(a), Value::String(b)) => bool_result(r, a@ == b@),
        (Value::Bool(a), Value::Bool(b)) => bool_result(r, a == b),
        _ => is_error(r, mismatch_text("equal"@, val1, val2)),
    }
}

/// What `ALU::not_equal` gives for `val1` and `val2`.
pub open spec fn not_equal_outcome(val1: Value, val2: Value, r: Result<Value, ComputationIssue>) -> bool {
    match (val1, val2) {
        (Value::I64(a), Value::I64(b)) => bool_result(r, a != b),
        (Value::F64(a), Value::F64(b)) => bool_result(r, !float_eq(a, b)),
        (Value::String(a), Value::String(b)) => bool_result(r, a@ != b@),
        (Value::Bool(a), Value::Bool(b)) => bool_result(r, a != b),
        _ => is_error(r, mismatch_text("not equal"@, val1, val2)),
    }
}

fn error(text: String) -> (e: ComputationIssue)
    ensures
        e.message@ == text@,
{
    ComputationIssue { message: text }
}

fn mismatch_error(op: &str, a: &Value, b: &Value) -> (e: ComputationIssue)
    ensures
        e.message@ == mismatch_text(op@, *a, *b),
{
    let mut s = String::from_str("Cannot perform ");
    s.append(op);
    s.append(" between values of type '");
    s.append(a.to_type().text());
    s.append("' and '");
    s.append(b.to_type().text());
    s.append("'.");
    error(s)
}

fn negation_error(kind: &str, t: Type) -> (e: ComputationIssue)
    ensures
        e.message@ == negation_text(kind@, t),
{
    let mut s = String::from_str("Cannot perform ");
    s.append(kind);
    s.append(" negation on type '");
    s.append(t.text());
    s.append("'.");
    error(s)
}

fn cast_string_error(value: &String, target: &str) -> (e: ComputationIssue)
    ensures
        e.message@ == cast_string_text(value@, target@),
{
    let mut s = String::from_str("Cannot cast String '");
    s.append(value.as_str());
    s.append("' to ");
    s.append(target);
    s.append(".");
    error(s)
}

/// The message for a cast that no rule allows, given how the value is
/// written.
pub fn cast_error(value_text: &String, t: Type) -> (e: ComputationIssue)
    ensures
        e.message@ == cast_text(value_text@, t),
{
    let mut s = String::from_str("Cannot cast '");
    s.append(value_text.as_str());
    s.append("' to '");
    s.append(t.text());
    s.append("'.");
    error(s)
}

/// The arithmetic units of the interpreter: each operation checks the kinds
/// of its operands and reports overflow instead of wrapping.
pub struct ALU;

impl ALU {
    /// An integer result, or the overflow error where there is none.
    pub fn check_int_operation(result: Option<i64>, op_name: &str) -> (r: Result<Value, ComputationIssue>)
        ensures
            int_outcome(result, op_name@, r),
    {
        match result {
            Some(v) => Ok(Value::I64(v)),
            None => {
                let mut s = String::from_str("Overflow occurred when performing ");
                s.append(op_name);
                s.append(" on i64s.");
                Err(error(s))
            },
        }
    }

    /// A float result, refused where it is infinite or NaN.
    pub fn check_float_operation(result: u64, op_name: &str) -> (r: Result<Value, ComputationIssue>)
        ensures
            float_is_finite(result) ==> r == Ok::<Value, ComputationIssue>(Value::F64(result)),
            !float_is_finite(result) ==> is_error(r, invalid_float_text(op_name@)),
    {
        if is_finite(result) {
            Ok(Value::F64(result))
        } else {
            let mut s = String::from_str("Invalid result when performing ");
            s.append(op_name);
            s.append(" on f64s.");
            Err(error(s))
        }
    }

    /// What a cast of the string `s` to `f64` gives, once the text was read
    /// as a float (`parsed`): that float, or the error where it could not be.
    pub fn float_from_text(s: &String, parsed: Option<u64>) -> (r: Result<Value, ComputationIssue>)
        ensures
            parsed matches Some(v) ==> r == Ok::<Value, ComputationIssue>(Value::F64(v)),
            parsed is None ==> is_error(r, cast_string_text(s@, "f64"@)),
    {
        match parsed {
            Some(v) => Ok(Value::F64(v)),
            None => Err(cast_string_error(s, "f64")),
        }
    }

    /// `val as to_type`. A value cast to its own type is kept as it is.
    /// Numbers and strings convert among themselves as the language allows;
    /// a number is true when it is above zero and a string when it is not
    /// empty. Any other pair is refused.
    pub fn cast_to_type<F: FloatArithmetic>(fl: &F, val: Value, to_type: Type) -> (r: Result<Value, ComputationIssue>)
        ensures
            cast_outcome(val, to_type, r),
            float_cast_outcome(fl, val, to_type, r),
    {
        match (&val, to_type) {
            (Value::I64(_), Type::I64) | (Value::F64(_), Type::F64) | (Value::String(_), Type::Str) | (Value::Bool(_), Type::Bool) => Ok(
                val,
            ),
            (Value::I64(i), Type::Str) => Ok(Value::String(i64_to_string(*i))),
            (Value::F64(f), Type::Str) => Ok(Value::String(fl.to_text(*f))),
            (Value::I64(i), Type::F64) => Ok(Value::F64(fl.from_i64(*i))),
            (Value::F64(f), Type::I64) => Ok(Value::I64(fl.to_i64(*f))),
            (Value::I64(i), Type::Bool) => Ok(Value::Bool(*i > 0)),
            (Value::F64(f), Type::Bool) => Ok(Value::Bool(less(0, *f))),
            (Value::String(s), Type::I64) => match parse_i64(s.as_str()) {
                Some(v) => Ok(Value::I64(v)),
                None => Err(cast_string_error(s, "i64")),
            },
            (Value::String(s), Type::F64) => Self::float_from_text(s, fl.parse(s.as_str())),
            (Value::String(s), Type::Bool) => Ok(Value::Bool(s.as_str().unicode_len() != 0)),
            _ => {
                let text = val.debug_text(fl);
                Err(cast_error(&text, to_type))
            },
        }
    }

    pub fn boolean_negate(val: Value) -> (r: Result<Value, ComputationIssue>)
        ensures
            boolean_negate_outcome(val, r),
    {
        match val {
            Value::Bool(b) => Ok(Value::Bool(!b)),
            other => Err(negation_error("boolean", other.to_type())),
        }
    }

    /// `-val`; the negation of `i64::MIN` does not fit and is refused.
    pub fn arithmetic_negate(val: Value) -> (r: Result<Value, ComputationIssue>)
        ensures
            arithmetic_negate_outcome(val, r),
    {
        match val {
            Value::I64(i) => {
                let negated = if i == i64::MIN { None } else { Some(-i) };
                Self::check_int_operation(negated, "arithmetic negation")
            },
            Value::F64(f) => Ok(Value::F64(negate(f))),
            other => Err(negation_error("arithmetic", other.to_type())),
        }
    }

    pub fn add<F: FloatArithmetic>(fl: &F, val1: Value, val2: Value) -> (r: Result<Value, ComputationIssue>)
        ensures
            add_outcome(val1, val2, r),
            val1 matches Value::F64(a) ==> val2 matches Value::F64(b) ==> float_sum_outcome(fl, a, b, r),
    {
        match (&val1, &val2) {
            (Value::I64(a), Value::I64(b)) => Self::check_int_operation(a.checked_add(*b), "addition"),
            (Value::F64(a), Value::F64(b)) => Self::check_float_operation(fl.add(*a, *b), "addition"),
            (Value::String(a), Value::String(b)) => {
                let mut s = a.clone();
                s.append(b.as_str());
                Ok(Value::String(s))
            },
            _ => Err(mismatch_error("addition", &val1, &val2)),
        }
    }

    pub fn subtract<F: FloatArithmetic>(fl: &F, val1: Value, val2: Value) -> (r: Result<Value, ComputationIssue>)
        ensures
            subtract_outcome(val1, val2, r),
            val1 matches Value::F64(a) ==> val2 matches Value::F64(b) ==> float_difference_outcome(fl, a, b, r),
    {
        match (&val1, &val2) {
            (Value::I64(a), Value::I64(b)) => Self::check_int_operation(a.checked_sub(*b), "subtraction"),
            (Value::F64(a), Value::F64(b)) => Self::check_float_operation(fl.sub(*a, *b), "subtraction"),
            _ => Err(mismatch_error("subtraction", &val1, &val2)),
        }
    }

    pub fn multiplication<F: FloatArithmetic>(fl: &F, val1: Value, val2: Value) -> (r: Result<Value, ComputationIssue>)
        ensures
            multiplication_outcome(val1, val2, r),
            val1 matches Value::F64(a) ==> val2 matches Value::F64(b) ==> float_product_outcome(fl, a, b, r),
    {
        match (&val1, &val2) {
            (Value::I64(a), Value::I64(b)) => Self::check_int_operation(a.checked_mul(*b), "multiplication"),
            (Value::F64(a), Value::F64(b)) => Self::check_float_operation(fl.mul(*a, *b), "multiplication"),
            _ => Err(mismatch_error("multiplication", &val1, &val2)),
        }
    }

    /// Division; on integers it rounds toward zero, and dividing by zero or
    /// `i64::MIN / -1` is refused as an overflow.
    pub fn division<F: FloatArithmetic>(fl: &F, val1: Value, val2: Value) -> (r: Result<Value, ComputationIssue>)
        ensures
            division_outcome(val1, val2, r),
            val1 matches Value::F64(a) ==> val2 matches Value::F64(b) ==> float_quotient_outcome(fl, a, b, r),
    {
        match (&val1, &val2) {
            (Value::I64(a), Value::I64(b)) => Self::check_int_operation(a.checked_div(*b), "division"),
            (Value::F64(a), Value::F64(b)) => Self::check_float_operation(fl.div(*a, *b), "division"),
            _ => Err(mismatch_error("division", &val1, &val2)),
        }
    }

    /// Logical and.
    pub fn concatenation(val1: Value, val2: Value) -> (r: Result<Value, ComputationIssue>)
        ensures
            concatenation_outcome(val1, val2, r),
    {
        match (&val1, &val2) {
            (Value::Bool(a), Value::Bool(b)) => Ok(Value::Bool(*a && *b)),
            _ => Err(mismatch_error("concatenation", &val1, &val2)),
        }
    }

    /// Logical or.
    pub fn alternative(val1: Value, val2: Value) -> (r: Result<Value, ComputationIssue>)
        ensures
            alternative_outcome(val1, val2, r),
    {
        match (&val1, &val2) {
            (Value::Bool(a), Value::Bool(b)) => Ok(Value::Bool(*a || *b)),
            _ => Err(mismatch_error("alternative", &val1, &val2)),
        }
    }

    pub fn greater(val1: Value, val2: Value) -> (r: Result<Value, ComputationIssue>)
        ensures
            greater_outcome(val1, val2, r),
    {
        match (&val1, &val2) {
            (Value::I64(a), Value::I64(b)) => Ok(Value::Bool(*a > *b)),
            (Value::F64(a), Value::F64(b)) => Ok(Value::Bool(less(*b, *a))),
            _ => Err(mismatch_error("greater", &val1, &val2)),
        }
    }

    pub fn greater_or_equal(val1: Value, val2: Value) -> (r: Result<Value, ComputationIssue>)
        ensures
            greater_or_equal_outcome(val1, val2, r),
    {
        match (&val1, &val2) {
            (Value::I64(a), Value::I64(b)) => Ok(Value::Bool(*a >= *b)),
            (Value::F64(a), Value::F64(b)) => Ok(Value::Bool(less(*b, *a) || equal(*a, *b))),
            _ => Err(mismatch_error("greater or equal", &val1, &val2)),
        }
    }

    pub fn less(val1: Value, val2: Value) -> (r: Result<Value, ComputationIssue>)
        ensures
            less_outcome(val1, val2, r),
    {
        match (&val1, &val2) {
            (Value::I64(a), Value::I64(b)) => Ok(Value::Bool(*a < *b)),
            (Value::F64(a), Value::F64(b)) => Ok(Value::Bool(less(*a, *b))),
            _ => Err(mismatch_error("less", &val1, &val2)),
        }
    }

    pub fn less_or_equal(val1: Value, val2: Value) -> (r: Result<Value, ComputationIssue>)
        ensures
            less_or_equal_outcome(val1, val2, r),
    {
        match (&val1, &val2) {
            (Value::I64(a), Value::I64(b)) => Ok(Value::Bool(*a <= *b)),
            (Value::F64(a), Value::F64(b)) => Ok(Value::Bool(less(*a, *b) || equal(*a, *b))),
            _ => Err(mismatch_error("less or equal", &val1, &val2)),
        }
    }

    pub fn equal(val1: Value, val2: Value) -> (r: Result<Value, ComputationIssue>)
        ensures
            equal_outcome(val1, val2, r),
    {
        match (&val1, &val2) {
            (Value::I64(a), Value::I64(b)) => Ok(Value::Bool(*a == *b)),
            (Value::F64(a), Value::F64(b)) => Ok(Value::Bool(equal(*a, *b))),
            (Value::String(a), Value::String(b)) => Ok(Value::Bool(str_equal(a.as_str(), b.as_str()))),
            (Value::Bool(a), Value::Bool(b)) => Ok(Value::Bool(*a == *b)),
            _ => Err(mismatch_error("equal", &val1, &val2)),
        }
    }

    pub fn not_equal(val1: Value, val2: Value) -> (r: Result<Value, ComputationIssue>)
        ensures
            not_equal_outcome(val1, val2, r),
    {
        match (&val1, &val2) {
            (Value::I64(a), Value::I64(b)) => Ok(Value::Bool(*a != *b)),
            (Value::F64(a), Value::F64(b)) => Ok(Value::Bool(!equal(*a, *b))),
            (Value::String(a), Value::String(b)) => Ok(Value::Bool(!str_equal(a.as_str(), b.as_str()))),
            (Value::Bool(a), Value::Bool(b)) => Ok(Value::Bool(*a != *b)),
            _ => Err(mismatch_error("not equal", &val1, &val2)),
        }
    }
}

/// Casting an `i64` to `str` and that text back to `i64` gives the number
/// again.
pub proof fn law_cast_int_round_trip(
    i: i64,
    text: Result<Value, ComputationIssue>,
    back: Result<Value, ComputationIssue>,
)
    requires
        cast_outcome(Value::I64(i), Type::Str, text),
        text matches Ok(t) && cast_outcome(t, Type::I64, back),
    ensures
        back == Ok::<Value, ComputationIssue>(Value::I64(i)),
{
    law_int_text_parses_back(i);
}

/// Adding two doubles computes nothing but the float unit's rounded
/// result for exactly those two doubles, in that order: a result is such a
/// value and is finite, and the operation is refused only where the unit's
/// result is infinite or NaN.
pub proof fn law_float_addition_is_unit_result<F: FloatArithmetic>(fl: &F, a: u64, b: u64, r: Result<Value, ComputationIssue>)
    requires
        float_sum_outcome(fl, a, b, r),
    ensures
        r matches Ok(v) ==> (v matches Value::F64(x) && float_is_finite(x) && call_ensures(F::add, (fl, a, b), x)),
        r matches Err(e) ==> (e.message@ == invalid_float_text("addition"@) && exists|x: u64|
            #[trigger] call_ensures(F::add, (fl, a, b), x) && !float_is_finite(x)),
{
}

/// Subtracting two doubles computes nothing but the float unit's rounded
/// result for exactly those two doubles, in that order: a result is such a
/// value and is finite, and the operation is refused only where the unit's
/// result is infinite or NaN.
pub proof fn law_float_subtraction_is_unit_result<F: FloatArithmetic>(fl: &F, a: u64, b: u64, r: Result<Value, ComputationIssue>)
    requires
        float_difference_outcome(fl, a, b, r),
    ensures
        r matches Ok(v) ==> (v matches Value::F64(x) && float_is_finite(x) && call_ensures(F::sub, (fl, a, b), x)),
        r matches Err(e) ==> (e.message@ == invalid_float_text("subtraction"@) && exists|x: u64|
            #[trigger] call_ensures(F::sub, (fl, a, b), x) && !float_is_finite(x)),
{
}

/// Multiplying two doubles computes nothing but the float unit's rounded
/// result for exactly those two doubles, in that order: a result is such a
/// value and is finite, and the operation is refused only where the unit's
/// result is infinite or NaN.
pub proof fn law_float_multiplication_is_unit_result<F: FloatArithmetic>(fl: &F, a: u64, b: u64, r: Result<Value, ComputationIssue>)
    requires
        float_product_outcome(fl, a, b, r),
    ensures
        r matches Ok(v) ==> (v matches Value::F64(x) && float_is_finite(x) && call_ensures(F::mul, (fl, a, b), x)),
        r matches Err(e) ==> (e.message@ == invalid_float_text("multiplication"@) && exists|x: u64|
            #[trigger] call_ensures(F::mul, (fl, a, b), x) && !float_is_finite(x)),
{
}

/// Dividing two doubles computes nothing but the float unit's rounded
/// result for exactly those two doubles, in that order: a result is such a
/// value and is finite, and the operation is refused only where the unit's
/// result is infinite or NaN.
pub proof fn law_float_division_is_unit_result<F: FloatArithmetic>(fl: &F, a: u64, b: u64, r: Result<Value, ComputationIssue>)
    requires
        float_quotient_outcome(fl, a, b, r),
    ensures
        r matches Ok(v) ==> (v matches Value::F64(x) && float_is_finite(x) && call_ensures(F::div, (fl, a, b), x)),
        r matches Err(e) ==> (e.message@ == invalid_float_text("division"@) && exists|x: u64|
            #[trigger] call_ensures(F::div, (fl, a, b), x) && !float_is_finite(x)),
{
}

/// Casting a double to `str` gives the float unit's text of that same
/// double (so the sign and digits are those of the value cast, not of
/// another double); casting a double to `i64` gives the unit's conversion
/// of that same double.
pub proof fn law_double_cast_uses_unit<F: FloatArithmetic>(
    fl: &F,
    f: u64,
    text: Result<Value, ComputationIssue>,
    whole: Result<Value, ComputationIssue>,
)
    requires
        float_cast_outcome(fl, Value::F64(f), Type::Str, text),
        float_cast_outcome(fl, Value::F64(f), Type::I64, whole),
    ensures
        text matches Ok(v) && (v matches Value::String(t) && call_ensures(F::to_text, (fl, f), t)),
        whole matches Ok(v) && (v matches Value::I64(n) && call_ensures(F::to_i64, (fl, f), n)),
{
}

/// Casting an `i64` to `f64` gives the float unit's double for that same
/// integer, and casting a string to `f64` gives the double the unit reads
/// from that same text, or the error naming the text.
pub proof fn law_cast_to_double_uses_unit<F: FloatArithmetic>(
    fl: &F,
    i: i64,
    s: String,
    from_int: Result<Value, ComputationIssue>,
    from_text: Result<Value, ComputationIssue>,
)
    requires
        float_cast_outcome(fl, Value::I64(i), Type::F64, from_int),
        float_cast_outcome(fl, Value::String(s), Type::F64, from_text),
    ensures
        from_int matches Ok(v) && (v matches Value::F64(x) && call_ensures(F::from_i64, (fl, i), x)),
        exists|t: &str, p: Option<u64>|
            #[trigger] call_ensures(F::parse, (fl, t), p) && t@ == s@ && match p {
                Some(x) => from_text == Ok::<Value, ComputationIssue>(Value::F64(x)),
                None => from_text matches Err(e) && e.message@ == cast_string_text(s@, "f64"@),
            },
{
}

} // verus!
