use tkom::alu::ALU;
use tkom::ast::Type;
use tkom::float::FloatArithmetic;
use tkom::tokens::FloatLiteral;
use tkom::value::Value;

/// Doubles computed with the machine's floating point.
struct Machine;

impl FloatArithmetic for Machine {
    fn from_literal(&self, literal: FloatLiteral) -> u64 {
        format!("{}.{:0width$}", literal.integral, literal.fraction, width = literal.fraction_digits as usize)
            .parse::<f64>()
            .unwrap()
            .to_bits()
    }
    fn from_i64(&self, value: i64) -> u64 {
        (value as f64).to_bits()
    }
    fn to_i64(&self, value: u64) -> i64 {
        f64::from_bits(value) as i64
    }
    fn to_text(&self, value: u64) -> String {
        f64::from_bits(value).to_string()
    }
    fn debug_text(&self, value: u64) -> String {
        format!("{:?}", f64::from_bits(value))
    }
    fn parse(&self, text: &str) -> Option<u64> {
        text.parse::<f64>().ok().map(|f| f.to_bits())
    }
    fn add(&self, a: u64, b: u64) -> u64 {
        (f64::from_bits(a) + f64::from_bits(b)).to_bits()
    }
    fn sub(&self, a: u64, b: u64) -> u64 {
        (f64::from_bits(a) - f64::from_bits(b)).to_bits()
    }
    fn mul(&self, a: u64, b: u64) -> u64 {
        (f64::from_bits(a) * f64::from_bits(b)).to_bits()
    }
    fn div(&self, a: u64, b: u64) -> u64 {
        (f64::from_bits(a) / f64::from_bits(b)).to_bits()
    }
}

fn f(x: f64) -> Value {
    Value::F64(x.to_bits())
}

fn s(x: &str) -> Value {
    Value::String(String::from(x))
}

#[test]
fn cast_to_type() {
    let data = [
        (Value::I64(1), Type::Str),
        (f(1.2), Type::Str),
        (Value::I64(1), Type::F64),
        (f(1.2), Type::I64),
        (Value::I64(1), Type::Bool),
        (Value::I64(0), Type::Bool),
        (f(1.2), Type::Bool),
        (f(0.0), Type::Bool),
        (s("1"), Type::I64),
        (s("1.2"), Type::F64),
        (s("some string"), Type::Bool),
        (s(""), Type::Bool),
    ];

    let expected = [
        s("1"),
        s("1.2"),
        f(1.0),
        Value::I64(1),
        Value::Bool(true),
        Value::Bool(false),
        Value::Bool(true),
        Value::Bool(false),
        Value::I64(1),
        f(1.2),
        Value::Bool(true),
        Value::Bool(false),
    ];

    for idx in 0..data.len() {
        let (init, to_type) = &data[idx];
        let exp = &expected[idx];
        assert!(ALU::cast_to_type(&Machine, init.clone(), *to_type).unwrap() == *exp);
    }
}

#[test]
fn cast_to_type_fail() {
    let data = [(s("abc"), Type::I64), (s("abc"), Type::F64)];

    for (val, to_type) in data {
        assert!(ALU::cast_to_type(&Machine, val, to_type).is_err());
    }
}

#[test]
fn cast_error_messages() {
    assert_eq!(ALU::cast_to_type(&Machine, s("abc"), Type::I64).err().unwrap().message, "Cannot cast String 'abc' to i64.");
    assert_eq!(ALU::cast_to_type(&Machine, s("abc"), Type::F64).err().unwrap().message, "Cannot cast String 'abc' to f64.");
    assert_eq!(ALU::cast_to_type(&Machine, Value::I64(5), Type::Void).err().unwrap().message, "Cannot cast 'I64(5)' to 'void'.");
    assert_eq!(ALU::cast_to_type(&Machine, f(1.5), Type::Void).err().unwrap().message, "Cannot cast 'F64(1.5)' to 'void'.");
    assert_eq!(
        ALU::cast_to_type(&Machine, s("a\"b"), Type::Void).err().unwrap().message,
        "Cannot cast 'String(\"a\\\"b\")' to 'void'."
    );
    assert_eq!(ALU::cast_to_type(&Machine, Value::Bool(true), Type::I64).err().unwrap().message, "Cannot cast 'Bool(true)' to 'i64'.");
}

#[test]
fn cast_round_trip_through_text() {
    for i in [0i64, 7, -42, i64::MAX, i64::MIN] {
        let text = ALU::cast_to_type(&Machine, Value::I64(i), Type::Str).unwrap();
        assert!(ALU::cast_to_type(&Machine, text, Type::I64).unwrap() == Value::I64(i));
    }
}

#[test]
fn boolean_negation() {
    assert!(ALU::boolean_negate(Value::Bool(false)).unwrap() == Value::Bool(true));
    assert!(ALU::boolean_negate(Value::Bool(true)).unwrap() == Value::Bool(false));
    assert!(ALU::boolean_negate(Value::I64(1)).is_err());
}

#[test]
fn arithmetic_negation() {
    assert!(ALU::arithmetic_negate(Value::I64(1)).unwrap() == Value::I64(-1));
    assert!(ALU::arithmetic_negate(f(-21.37)).unwrap() == f(21.37));
    assert!(ALU::arithmetic_negate(s("abc")).is_err());
}

#[test]
fn arithmetic_negation_of_minimum_overflows() {
    assert_eq!(
        ALU::arithmetic_negate(Value::I64(i64::MIN)).err().unwrap().message,
        "Overflow occurred when performing arithmetic negation on i64s."
    );
    assert_eq!(
        ALU::arithmetic_negate(s("abc")).err().unwrap().message,
        "Cannot perform arithmetic negation on type 'str'."
    );
}

#[test]
fn add() {
    let data = [(Value::I64(1), Value::I64(2)), (f(1.5), f(2.5)), (s("Papollo"), s("2137"))];

    let expected = [Value::I64(3), f(4.0), s("Papollo2137")];

    for idx in 0..data.len() {
        let (val1, val2) = &data[idx];
        assert!(ALU::add(&Machine, val1.clone(), val2.clone()).unwrap() == expected[idx]);
    }
}

#[test]
fn add_fail() {
    assert!(ALU::add(&Machine, Value::I64(6532475327647647762), Value::I64(6532475327647647762)).is_err());
    assert!(ALU::add(&Machine, Value::I64(1), f(2.0)).is_err());
}

#[test]
fn add_error_messages() {
    assert_eq!(
        ALU::add(&Machine, Value::I64(i64::MAX), Value::I64(1)).err().unwrap().message,
        "Overflow occurred when performing addition on i64s."
    );
    assert_eq!(
        ALU::add(&Machine, Value::I64(1), f(2.0)).err().unwrap().message,
        "Cannot perform addition between values of type 'i64' and 'f64'."
    );
    assert_eq!(
        ALU::add(&Machine, f(f64::MAX), f(f64::MAX)).err().unwrap().message,
        "Invalid result when performing addition on f64s."
    );
}

#[test]
fn subtract() {
    let data = [(Value::I64(1), Value::I64(2)), (f(1.5), f(2.5))];

    let expected = [Value::I64(-1), f(-1.0)];

    for idx in 0..data.len() {
        let (val1, val2) = &data[idx];
        assert!(ALU::subtract(&Machine, val1.clone(), val2.clone()).unwrap() == expected[idx]);
    }
}

#[test]
fn subtract_fail() {
    assert!(ALU::subtract(&Machine, Value::I64(-6532475327647647762), Value::I64(6532475327647647762)).is_err());
    assert!(ALU::subtract(&Machine, Value::I64(1), f(2.0)).is_err());
    assert!(ALU::subtract(&Machine, s("a"), s("a")).is_err());
}

#[test]
fn multiplication() {
    let data = [(Value::I64(1), Value::I64(2)), (f(1.5), f(2.5))];

    let expected = [Value::I64(2), f(3.75)];

    for idx in 0..data.len() {
        let (val1, val2) = &data[idx];
        assert!(ALU::multiplication(&Machine, val1.clone(), val2.clone()).unwrap() == expected[idx]);
    }
}

#[test]
fn multiplication_fail() {
    assert!(ALU::multiplication(&Machine, Value::I64(6532475327647647762), Value::I64(6532475327647647762)).is_err());
    assert!(ALU::multiplication(&Machine, Value::I64(1), f(2.0)).is_err());
    assert!(ALU::multiplication(&Machine, s("a"), s("a")).is_err());
}

#[test]
fn division() {
    let data = [(Value::I64(1), Value::I64(2)), (f(1.5), f(2.5))];

    let expected = [Value::I64(0), f(0.6)];

    for idx in 0..data.len() {
        let (val1, val2) = &data[idx];
        assert!(ALU::division(&Machine, val1.clone(), val2.clone()).unwrap() == expected[idx]);
    }
}

#[test]
fn division_fail() {
    assert!(ALU::division(&Machine, Value::I64(6532475327647647762), Value::I64(0)).is_err());
    assert!(ALU::division(&Machine, Value::I64(1), f(2.0)).is_err());
    assert!(ALU::division(&Machine, s("a"), s("a")).is_err());
}

#[test]
fn division_rounds_toward_zero_and_refuses_zero() {
    assert!(ALU::division(&Machine, Value::I64(-7), Value::I64(2)).unwrap() == Value::I64(-3));
    assert_eq!(
        ALU::division(&Machine, Value::I64(i64::MIN), Value::I64(-1)).err().unwrap().message,
        "Overflow occurred when performing division on i64s."
    );
    assert_eq!(
        ALU::division(&Machine, f(1.0), f(0.0)).err().unwrap().message,
        "Invalid result when performing division on f64s."
    );
}

#[test]
fn concatenation() {
    assert!(ALU::concatenation(Value::Bool(true), Value::Bool(true)).unwrap() == Value::Bool(true));
    assert!(ALU::concatenation(Value::Bool(false), Value::Bool(true)).unwrap() == Value::Bool(false));
    assert!(ALU::concatenation(Value::Bool(true), Value::Bool(false)).unwrap() == Value::Bool(false));
    assert!(ALU::concatenation(Value::Bool(false), Value::Bool(false)).unwrap() == Value::Bool(false));
    assert!(ALU::concatenation(Value::Bool(true), Value::I64(1)).is_err());
}

#[test]
fn alternative() {
    assert!(ALU::alternative(Value::Bool(true), Value::Bool(true)).unwrap() == Value::Bool(true));
    assert!(ALU::alternative(Value::Bool(false), Value::Bool(true)).unwrap() == Value::Bool(true));
    assert!(ALU::alternative(Value::Bool(true), Value::Bool(false)).unwrap() == Value::Bool(true));
    assert!(ALU::alternative(Value::Bool(false), Value::Bool(false)).unwrap() == Value::Bool(false));
    assert!(ALU::alternative(Value::Bool(true), Value::I64(1)).is_err());
}

#[test]
fn greater() {
    assert!(ALU::greater(Value::I64(1), Value::I64(2)).unwrap() == Value::Bool(false));
    assert!(ALU::greater(Value::I64(2), Value::I64(2)).unwrap() == Value::Bool(false));
    assert!(ALU::greater(Value::I64(3), Value::I64(2)).unwrap() == Value::Bool(true));
    assert!(ALU::greater(f(1.0), f(2.0)).unwrap() == Value::Bool(false));
    assert!(ALU::greater(f(2.0), f(2.0)).unwrap() == Value::Bool(false));
    assert!(ALU::greater(f(3.0), f(2.0)).unwrap() == Value::Bool(true));
    assert!(ALU::greater(Value::I64(2), f(3.0)).is_err());
}

#[test]
fn greater_or_equal() {
    assert!(ALU::greater_or_equal(Value::I64(1), Value::I64(2)).unwrap() == Value::Bool(false));
    assert!(ALU::greater_or_equal(Value::I64(2), Value::I64(2)).unwrap() == Value::Bool(true));
    assert!(ALU::greater_or_equal(Value::I64(3), Value::I64(2)).unwrap() == Value::Bool(true));
    assert!(ALU::greater_or_equal(f(1.0), f(2.0)).unwrap() == Value::Bool(false));
    assert!(ALU::greater_or_equal(f(2.0), f(2.0)).unwrap() == Value::Bool(true));
    assert!(ALU::greater_or_equal(f(3.0), f(2.0)).unwrap() == Value::Bool(true));
    assert!(ALU::greater_or_equal(Value::I64(2), f(3.0)).is_err());
}

#[test]
fn less() {
    assert!(ALU::less(Value::I64(1), Value::I64(2)).unwrap() == Value::Bool(true));
    assert!(ALU::less(Value::I64(2), Value::I64(2)).unwrap() == Value::Bool(false));
    assert!(ALU::less(Value::I64(3), Value::I64(2)).unwrap() == Value::Bool(false));
    assert!(ALU::less(f(1.0), f(2.0)).unwrap() == Value::Bool(true));
    assert!(ALU::less(f(2.0), f(2.0)).unwrap() == Value::Bool(false));
    assert!(ALU::less(f(3.0), f(2.0)).unwrap() == Value::Bool(false));
    assert!(ALU::less(Value::I64(2), f(3.0)).is_err());
}

#[test]
fn less_or_equal() {
    assert!(ALU::less_or_equal(Value::I64(1), Value::I64(2)).unwrap() == Value::Bool(true));
    assert!(ALU::less_or_equal(Value::I64(2), Value::I64(2)).unwrap() == Value::Bool(true));
    assert!(ALU::less_or_equal(Value::I64(3), Value::I64(2)).unwrap() == Value::Bool(false));
    assert!(ALU::less_or_equal(f(1.0), f(2.0)).unwrap() == Value::Bool(true));
    assert!(ALU::less_or_equal(f(2.0), f(2.0)).unwrap() == Value::Bool(true));
    assert!(ALU::less_or_equal(f(3.0), f(2.0)).unwrap() == Value::Bool(false));
    assert!(ALU::less_or_equal(Value::I64(2), f(3.0)).is_err());
}

#[test]
fn float_comparisons_follow_ieee() {
    assert!(ALU::less(f(-1.0), f(0.5)).unwrap() == Value::Bool(true));
    assert!(ALU::less(f(-2.0), f(-1.0)).unwrap() == Value::Bool(true));
    assert!(ALU::equal(f(0.0), f(-0.0)).unwrap() == Value::Bool(true));
    assert!(ALU::equal(f(f64::NAN), f(f64::NAN)).unwrap() == Value::Bool(false));
    assert!(ALU::not_equal(f(f64::NAN), f(1.0)).unwrap() == Value::Bool(true));
    assert!(ALU::less_or_equal(f(f64::NAN), f(1.0)).unwrap() == Value::Bool(false));
}

#[test]
fn equal() {
    assert!(ALU::equal(Value::I64(1), Value::I64(2)).unwrap() == Value::Bool(false));
    assert!(ALU::equal(Value::I64(2), Value::I64(2)).unwrap() == Value::Bool(true));
    assert!(ALU::equal(f(1.0), f(2.0)).unwrap() == Value::Bool(false));
    assert!(ALU::equal(f(2.0), f(2.0)).unwrap() == Value::Bool(true));
    assert!(ALU::equal(s("a"), s("b")).unwrap() == Value::Bool(false));
    assert!(ALU::equal(s("a"), s("a")).unwrap() == Value::Bool(true));
    assert!(ALU::equal(Value::Bool(true), Value::Bool(false)).unwrap() == Value::Bool(false));
    assert!(ALU::equal(Value::Bool(true), Value::Bool(true)).unwrap() == Value::Bool(true));
    assert!(ALU::equal(Value::Bool(true), Value::I64(1)).is_err());
}

#[test]
fn not_equal() {
    assert!(ALU::not_equal(Value::I64(1), Value::I64(2)).unwrap() == Value::Bool(true));
    assert!(ALU::not_equal(Value::I64(2), Value::I64(2)).unwrap() == Value::Bool(false));
    assert!(ALU::not_equal(f(1.0), f(2.0)).unwrap() == Value::Bool(true));
    assert!(ALU::not_equal(f(2.0), f(2.0)).unwrap() == Value::Bool(false));
    assert!(ALU::not_equal(s("a"), s("b")).unwrap() == Value::Bool(true));
    assert!(ALU::not_equal(s("a"), s("a")).unwrap() == Value::Bool(false));
    assert!(ALU::not_equal(Value::Bool(true), Value::Bool(false)).unwrap() == Value::Bool(true));
    assert!(ALU::not_equal(Value::Bool(true), Value::Bool(true)).unwrap() == Value::Bool(false));
    assert!(ALU::not_equal(Value::Bool(true), Value::I64(1)).is_err());
}

#[test]
fn cast_to_own_type_keeps_value() {
    assert!(ALU::cast_to_type(&Machine, Value::I64(2), Type::I64).unwrap() == Value::I64(2));
    assert!(ALU::cast_to_type(&Machine, f(2.5), Type::F64).unwrap() == f(2.5));
    assert!(ALU::cast_to_type(&Machine, s("abc"), Type::Str).unwrap() == s("abc"));
    assert!(ALU::cast_to_type(&Machine, Value::Bool(false), Type::Bool).unwrap() == Value::Bool(false));
    assert!(ALU::cast_to_type(&Machine, Value::I64(-2), Type::Str).unwrap() == s("-2"));
}

#[test]
fn float_from_text_results() {
    assert!(ALU::float_from_text(&String::from("x"), Some(7)).unwrap() == Value::F64(7));
    assert_eq!(ALU::float_from_text(&String::from("x"), None).err().unwrap().message, "Cannot cast String 'x' to f64.");
}
