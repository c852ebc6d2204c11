//! The built-in functions `print`, `input` and `mod`, and the console they
//! talk to.
use vstd::prelude::*;
use vstd::string::StringExecFns;

use crate::ast::{spec_type_text, Type};
use crate::issues::StdFunctionIssue;
use crate::lexical::{is_whitespace, spec_is_whitespace};
use crate::value::{spec_value_type, Value};

verus! {

/// `s` without its leading whitespace.
pub open spec fn trim_start(s: Seq<char>) -> Seq<char>
    decreases s.len(),
{
    if s.len() > 0 && spec_is_whitespace(s[0]) {
        trim_start(s.drop_first())
    } else {
        s
    }
}

/// `s` without its trailing whitespace.
pub open spec fn trim_end(s: Seq<char>) -> Seq<char>
    decreases s.len(),
{
    if s.len() > 0 && spec_is_whitespace(s.last()) {
        trim_end(s.drop_last())
    } else {
        s
    }
}

/// `str::trim`: `s` without whitespace at either end.
pub open spec fn trimmed(s: Seq<char>) -> Seq<char> {
    trim_end(trim_start(s))
}

/// A line read for `input`, or a failure to read one.
#[derive(Debug, Clone)]
pub enum InputLine {
    Line(String),
    Failed,
}

/// What the running program has written, and the lines it is given to read,
/// with how many of them it has read so far.
pub struct Console {
    pub output: Vec<String>,
    pub input: Vec<InputLine>,
    pub consumed: usize,
}

/// The outcome of a built-in call: a value (or none), an error, or a pause
/// because `input` needs a line that has not been read yet.
#[derive(Debug)]
pub enum StdOutcome {
    Returned(Option<Value>),
    Failed(StdFunctionIssue),
    NeedsInput,
}

#[derive(Debug, Clone, Copy, PartialEq, Eq, Structural)]
pub enum StdFunction {
    Print,
    Input,
    Modulo,
}

pub open spec fn std_function_named(name: Seq<char>) -> Option<StdFunction> {
    if name == "print"@ {
        Some(StdFunction::Print)
    } else if name == "input"@ {
        Some(StdFunction::Input)
    } else if name == "mod"@ {
        Some(StdFunction::Modulo)
    } else {
        None
    }
}

pub open spec fn std_params(f: StdFunction) -> Seq<Type> {
    match f {
        StdFunction::Print => seq![Type::Str],
        StdFunction::Input => seq![Type::Str],
        StdFunction::Modulo => seq![Type::I64, Type::I64],
    }
}

pub open spec fn wrong_argument_text(name: Seq<char>, given: Value) -> Seq<char> {
    "Std function '"@ + name + "' expected 'str' as the only argument, but was given '"@ + spec_type_text(
        spec_value_type(given),
    ) + "'."@
}

pub open spec fn modulo_types_text(a: Value, b: Value) -> Seq<char> {
    "Cannot perform modulo operation between values of types '"@ + spec_type_text(spec_value_type(a)) + "' and '"@
        + spec_type_text(spec_value_type(b)) + "'."@
}

pub open spec fn failed_with(r: StdOutcome, text: Seq<char>) -> bool {
    r matches StdOutcome::Failed(e) && e.message@ == text
}

/// The remainder of `a / b` with the sign of `a`, as Rust's `%` computes it.
pub open spec fn truncated_rem(a: int, b: int) -> int {
    if a >= 0 {
        a % (if b >= 0 { b } else { -b })
    } else {
        -((-a) % (if b >= 0 { b } else { -b }))
    }
}

/// What `print` does given `params`: it writes the text and a newline as
/// one more piece of output, or fails and writes nothing.
pub open spec fn print_effect(params: Seq<Value>, before: Console, after: Console, r: StdOutcome) -> bool {
    &&& after.input@ == before.input@
    &&& after.consumed == before.consumed
    &&& params.len() == 0 ==> failed_with(r, "Missing argument for 'print' function."@) && after.output@ == before.output@
    &&& params.len() > 0 ==> match params[0] {
        Value::String(text) => r == StdOutcome::Returned(None) && after.output@.len() == before.output@.len() + 1
            && after.output@.drop_last() == before.output@ && after.output@.last()@ == text@ + "\n"@,
        other => failed_with(r, wrong_argument_text("print"@, other)) && after.output@ == before.output@,
    }
}

/// What `input` does given `params`: it writes the prompt, then takes the
/// next line given (trimmed), or asks for one when none is left.
pub open spec fn input_effect(params: Seq<Value>, before: Console, after: Console, r: StdOutcome) -> bool {
    &&& after.input@ == before.input@
    &&& after.consumed <= after.input@.len()
    &&& params.len() == 0 ==> failed_with(r, "Missing argument for 'input' function."@) && after == before
    &&& params.len() > 0 ==> match params[0] {
        Value::String(prompt) => {
            &&& after.output@.len() == before.output@.len() + 1
            &&& after.output@.drop_last() == before.output@
            &&& after.output@.last()@ == prompt@
            &&& before.consumed == before.input@.len() ==> r == StdOutcome::NeedsInput && after.consumed == before.consumed
            &&& before.consumed < before.input@.len() ==> after.consumed == before.consumed + 1 && match before.input@[before.consumed as int] {
                InputLine::Line(line) => r matches StdOutcome::Returned(Some(Value::String(v))) && v@ == trimmed(line@),
                InputLine::Failed => failed_with(r, "Failed to read input."@),
            }
        },
        other => failed_with(r, wrong_argument_text("input"@, other)) && after == before,
    }
}

/// What `mod` gives for `params`.
pub open spec fn modulo_result(params: Seq<Value>, r: StdOutcome) -> bool {
    &&& params.len() < 2 ==> failed_with(r, "Missing arguments for 'mod' function."@)
    &&& params.len() >= 2 ==> match (params[0], params[1]) {
        (Value::I64(a), Value::I64(b)) => if b == 0 {
            failed_with(r, "Attempt to calculate the remainder with a divisor of zero."@)
        } else if a == i64::MIN && b == -1 {
            failed_with(r, "Attempt to calculate the remainder with overflow."@)
        } else {
            r matches StdOutcome::Returned(Some(Value::I64(v))) && v == truncated_rem(a as int, b as int)
        },
        (a, b) => failed_with(r, modulo_types_text(a, b)),
    }
}

fn failure(text: String) -> (r: StdOutcome)
    ensures
        failed_with(r, text@),
{
    StdOutcome::Failed(StdFunctionIssue { message: text })
}

/// `str::trim`.
pub fn trim(s: &str) -> (r: String)
    ensures
        r@ == trimmed(s@),
{
    let n = s.unicode_len();
    let mut start: usize = 0;
    assert(s@.skip(0) =~= s@);
    while start < n && is_whitespace(s.get_char(start))
        invariant
            start <= n,
            n == s@.len(),
            trim_start(s@) == trim_start(s@.skip(start as int)),
        decreases n - start,
    {
        assert(s@.skip(start as int).drop_first() =~= s@.skip(start + 1));
        start = start + 1;
    }
    assert(trim_start(s@) == s@.skip(start as int)) by {
        assert(s@.skip(start as int).len() == n - start);
    }
    let mut end: usize = n;
    while end > start && is_whitespace(s.get_char(end - 1))
        invariant
            start <= end <= n,
            n == s@.len(),
            trim_end(s@.skip(start as int)) == trim_end(s@.subrange(start as int, end as int)),
        decreases end,
    {
        assert(s@.subrange(start as int, end as int).drop_last() =~= s@.subrange(start as int, end - 1));
        end = end - 1;
    }
    assert(s@.skip(start as int) =~= s@.subrange(start as int, n as int));
    let mut r = String::new();
    let mut i = start;
    while i < end
        invariant
            start <= i <= end <= n,
            n == s@.len(),
            r@ == s@.subrange(start as int, i as int),
        decreases end - i,
    {
        crate::text::push_char(&mut r, s.get_char(i));
        assert(r@ =~= s@.subrange(start as int, i + 1));
        i = i + 1;
    }
    r
}

impl StdFunction {
    /// The built-in function called `name`.
    pub fn from_name(name: &str) -> (r: Option<StdFunction>)
        ensures
            r == std_function_named(name@),
    {
        proof {
            reveal_strlit("print");
            reveal_strlit("input");
            reveal_strlit("mod");
        }
        if crate::text::str_equal(name, "print") {
            Some(StdFunction::Print)
        } else if crate::text::str_equal(name, "input") {
            Some(StdFunction::Input)
        } else if crate::text::str_equal(name, "mod") {
            Some(StdFunction::Modulo)
        } else {
            None
        }
    }

    /// The types of the parameters.
    pub fn params(&self) -> (p: Vec<Type>)
        ensures
            p@ == std_params(*self),
    {
        match self {
            StdFunction::Print => vec![Type::Str],
            StdFunction::Input => vec![Type::Str],
            StdFunction::Modulo => vec![Type::I64, Type::I64],
        }
    }

    /// `print(text)`: writes the text and a newline.
    pub fn print(params: &Vec<Value>, console: &mut Console) -> (r: StdOutcome)
        ensures
            print_effect(params@, *old(console), *final(console), r),
    {
        if params.len() == 0 {
            return failure(String::from_str("Missing argument for 'print' function."));
        }
        match &params[0] {
            Value::String(text) => {
                let mut line = text.clone();
                line.append("\n");
                console.output.push(line);
                proof {
                    assert(console.output@.drop_last() =~= old(console).output@);
                }
                StdOutcome::Returned(None)
            },
            other => failure(wrong_argument(other, "print")),
        }
    }

    /// `input(prompt)`: writes the prompt and reads a line, without the
    /// whitespace at its ends. Where no line has been read yet, it pauses.
    pub fn input(params: &Vec<Value>, console: &mut Console) -> (r: StdOutcome)
        requires
            old(console).consumed <= old(console).input@.len(),
        ensures
            input_effect(params@, *old(console), *final(console), r),
    {
        if params.len() == 0 {
            return failure(String::from_str("Missing argument for 'input' function."));
        }
        match &params[0] {
            Value::String(prompt) => {
                console.output.push(prompt.clone());
                proof {
                    assert(console.output@.drop_last() =~= old(console).output@);
                }
                if console.consumed == console.input.len() {
                    return StdOutcome::NeedsInput;
                }
                let k = console.consumed;
                console.consumed = k + 1;
                match &console.input[k] {
                    InputLine::Line(line) => StdOutcome::Returned(Some(Value::String(trim(line.as_str())))),
                    InputLine::Failed => failure(String::from_str("Failed to read input.")),
                }
            },
            other => failure(wrong_argument(other, "input")),
        }
    }

    /// `mod(a, b)`: the remainder of `a / b`, with the sign of `a`. A zero
    /// divisor, and `i64::MIN` by -1, are refused.
    pub fn modulo(params: &Vec<Value>) -> (r: StdOutcome)
        ensures
            modulo_result(params@, r),
    {
        if params.len() < 2 {
            return failure(String::from_str("Missing arguments for 'mod' function."));
        }
        match (&params[0], &params[1]) {
            (Value::I64(a), Value::I64(b)) => {
                if *b == 0 {
                    failure(String::from_str("Attempt to calculate the remainder with a divisor of zero."))
                } else if *a == i64::MIN && *b == -1 {
                    failure(String::from_str("Attempt to calculate the remainder with overflow."))
                } else {
                    match a.checked_rem(*b) {
                        Some(v) => StdOutcome::Returned(Some(Value::I64(v))),
                        None => failure(String::from_str("Attempt to calculate the remainder with overflow.")),
                    }
                }
            },
            (a, b) => {
                let mut s = String::from_str("Cannot perform modulo operation between values of types '");
                s.append(a.to_type().text());
                s.append("' and '");
                s.append(b.to_type().text());
                s.append("'.");
                failure(s)
            },
        }
    }

    /// Runs the built-in function on the given arguments.
    pub fn execute(&self, params: &Vec<Value>, console: &mut Console) -> (r: StdOutcome)
        requires
            old(console).consumed <= old(console).input@.len(),
        ensures
            match *self {
                StdFunction::Print => print_effect(params@, *old(console), *final(console), r),
                StdFunction::Input => input_effect(params@, *old(console), *final(console), r),
                StdFunction::Modulo => modulo_result(params@, r) && *final(console) == *old(console),
            },
            final(console).input@ == old(console).input@,
            final(console).consumed <= final(console).input@.len(),
            old(console).consumed <= final(console).consumed,
            old(console).output@.len() <= final(console).output@.len(),
            forall|i: int| 0 <= i < old(console).output@.len() ==> #[trigger] final(console).output@[i] == old(console).output@[i],
    {
        match self {
            StdFunction::Print => {
                let r = Self::print(params, console);
                proof {
                    if console.output@.len() > old(console).output@.len() {
                        assert forall|i: int| 0 <= i < old(console).output@.len() implies #[trigger] console.output@[i] == old(
                            console,
                        ).output@[i] by {
                            assert(console.output@.drop_last()[i] == console.output@[i]);
                        }
                    }
                }
                r
            },
            StdFunction::Input => {
                let r = Self::input(params, console);
                proof {
                    if console.output@.len() > old(console).output@.len() {
                        assert forall|i: int| 0 <= i < old(console).output@.len() implies #[trigger] console.output@[i] == old(
                            console,
                        ).output@[i] by {
                            assert(console.output@.drop_last()[i] == console.output@[i]);
                        }
                    }
                }
                r
            },
            StdFunction::Modulo => Self::modulo(params),
        }
    }
}

fn wrong_argument(given: &Value, name: &str) -> (s: String)
    ensures
        s@ == wrong_argument_text(name@, *given),
{
    let mut s = String::from_str("Std function '");
    s.append(name);
    s.append("' expected 'str' as the only argument, but was given '");
    s.append(given.to_type().text());
    s.append("'.");
    s
}

/// The built-in functions, which no program may redeclare.
pub fn get_std_functions() -> (r: Vec<StdFunction>)
    ensures
        r@ == seq![StdFunction::Print, StdFunction::Input, StdFunction::Modulo],
{
    vec![StdFunction::Print, StdFunction::Input, StdFunction::Modulo]
}

} // verus!
