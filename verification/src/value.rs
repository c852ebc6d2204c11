//! The values that programs compute with.
use vstd::prelude::*;
use vstd::string::StringExecFns;

use crate::ast::{spec_type_text, Type};
use crate::float::FloatArithmetic;
use crate::issues::ComputationIssue;
use crate::text::{i64_to_string, int_text};

verus! {

/// A value. A float is held as the bits of its IEEE-754 double encoding;
/// arithmetic on floats is done by a `FloatArithmetic`.
#[derive(Debug, Clone, PartialEq)]
pub enum Value {
    I64(i64),
    F64(u64),
    String(String),
    Bool(bool),
}

/// The type of a value.
pub open spec fn spec_value_type(v: Value) -> Type {
    match v {
        Value::Bool(_) => Type::Bool,
        Value::F64(_) => Type::F64,
        Value::I64(_) => Type::I64,
        Value::String(_) => Type::Str,
    }
}

/// Whether `v` is the value a variable of type `t` holds when declared
/// without one: `false`, zero, or the empty string.
pub open spec fn is_default_value(t: Type, v: Value) -> bool {
    match v {
        Value::Bool(b) => t == Type::Bool && !b,
        Value::I64(i) => t == Type::I64 && i == 0,
        Value::F64(f) => t == Type::F64 && f == 0,
        Value::String(s) => t == Type::Str && s@.len() == 0,
    }
}

/// Whether a value of this kind can be stored where `t` is declared.
pub open spec fn spec_fits(t: Type, v: Value) -> bool {
    spec_value_type(v) == t && t != Type::Void
}

impl Value {
    /// The value of a variable declared with type `var_type` and no value;
    /// `void` has none.
    pub fn default_value(var_type: Type) -> (r: Result<Value, ComputationIssue>)
        ensures
            var_type != Type::Void ==> (r matches Ok(v) && is_default_value(var_type, v)),
            var_type == Type::Void ==> (r matches Err(e) && e.message@ == "Cannot create default value for type 'void'."@),
    {
        match var_type {
            Type::Bool => Ok(Value::Bool(false)),
            Type::I64 => Ok(Value::I64(0)),
            Type::F64 => Ok(Value::F64(0)),
            Type::Str => Ok(Value::String(String::new())),
            Type::Void => Err(ComputationIssue { message: String::from_str("Cannot create default value for type 'void'.") }),
        }
    }

    pub fn to_type(&self) -> (t: Type)
        ensures
            t == spec_value_type(*self),
    {
        match self {
            Value::Bool(_) => Type::Bool,
            Value::F64(_) => Type::F64,
            Value::I64(_) => Type::I64,
            Value::String(_) => Type::Str,
        }
    }

    /// The boolean a condition evaluates to; other values are refused.
    pub fn try_into_bool(&self) -> (r: Result<bool, ComputationIssue>)
        ensures
            (*self matches Value::Bool(b) ==> (r matches Ok(x) && x == b)),
            !(*self is Bool) ==> (r matches Err(e) && e.message@ == "Given value is not a boolean."@),
    {
        match self {
            Value::Bool(b) => Ok(*b),
            _ => Err(ComputationIssue { message: String::from_str("Given value is not a boolean.") }),
        }
    }

    /// A copy of the value.
    pub fn duplicate(&self) -> (r: Value)
        ensures
            r == *self,
    {
        match self {
            Value::I64(i) => Value::I64(*i),
            Value::F64(f) => Value::F64(*f),
            Value::String(s) => Value::String(s.clone()),
            Value::Bool(b) => Value::Bool(*b),
        }
    }
}

/// What `{:?}` writes for a string: the text in double quotes, with quotes,
/// backslashes and characters that do not print escaped.
pub uninterp spec fn str_debug_text(s: Seq<char>) -> Seq<char>;

/// The debugging text of a string, from std's `Debug` for `str`.
/// Trusted: the contract claims only that the result depends on the
/// characters of `s` alone; how each one is escaped is not stated.
#[verifier::external_body]
fn debug_str(s: &str) -> (r: String)
    ensures
        r@ == str_debug_text(s@),
{
    format!("{:?}", s)
}

/// How a value is written in messages, for the kinds whose text the library
/// computes itself; a float's text comes from a `FloatArithmetic`.
pub open spec fn value_debug_text(v: Value) -> Seq<char> {
    match v {
        Value::I64(i) => "I64("@ + int_text(i as int) + ")"@,
        Value::Bool(b) => if b { "Bool(true)"@ } else { "Bool(false)"@ },
        Value::String(s) => "String("@ + str_debug_text(s@) + ")"@,
        Value::F64(_) => "F64("@,
    }
}

impl Value {
    /// How the value is written in messages: `I64(5)`, `F64(1.5)`,
    /// `String("a")`, `Bool(true)`.
    pub fn debug_text<F: FloatArithmetic>(&self, fl: &F) -> (s: String)
        ensures
            !(*self is F64) ==> s@ == value_debug_text(*self),
            *self is F64 ==> exists|t: Seq<char>| s@ == "F64("@ + t + ")"@,
            *self matches Value::F64(f) ==> exists|t: String| #[trigger] call_ensures(F::debug_text, (fl, f), t) && s@ == "F64("@ + t@ + ")"@,
    {
        match self {
            Value::I64(i) => {
                let mut s = String::from_str("I64(");
                let t = i64_to_string(*i);
                s.append(t.as_str());
                s.append(")");
                s
            },
            Value::Bool(b) => if *b {
                String::from_str("Bool(true)")
            } else {
                String::from_str("Bool(false)")
            },
            Value::String(text) => {
                let mut s = String::from_str("String(");
                let t = debug_str(text.as_str());
                s.append(t.as_str());
                s.append(")");
                s
            },
            Value::F64(f) => {
                let mut s = String::from_str("F64(");
                let t = fl.debug_text(*f);
                s.append(t.as_str());
                s.append(")");
                assert(s@ == "F64("@ + t@ + ")"@);
                s
            },
        }
    }
}

} // verus!
