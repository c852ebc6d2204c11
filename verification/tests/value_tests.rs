use tkom::ast::Type;
use tkom::value::Value;

#[test]
fn default_values() {
    let data = [Type::Bool, Type::I64, Type::F64, Type::Str];

    let expected = [Value::Bool(false), Value::I64(0), Value::F64(0.0f64.to_bits()), Value::String(String::from(""))];

    for idx in 0..data.len() {
        assert!(Value::default_value(data[idx]).unwrap() == expected[idx]);
    }
}

#[test]
fn default_values_fail() {
    assert!(Value::default_value(Type::Void).is_err());
    assert_eq!(
        Value::default_value(Type::Void).err().unwrap().message,
        "Cannot create default value for type 'void'."
    );
}

#[test]
fn value_to_type() {
    let values = [Value::Bool(true), Value::I64(5), Value::F64(5.5f64.to_bits()), Value::String(String::from("hello"))];

    let exp = [Type::Bool, Type::I64, Type::F64, Type::Str];

    for idx in 0..values.len() {
        assert!(values[idx].to_type() == exp[idx]);
    }
}

#[test]
fn try_into_bool_refuses_other_values() {
    assert_eq!(Value::Bool(true).try_into_bool().ok(), Some(true));
    assert_eq!(Value::I64(1).try_into_bool().err().unwrap().message, "Given value is not a boolean.");
}
