use tkom::ast::Program;
use tkom::float::FloatArithmetic;
use tkom::interpreter::{Halt, Interpreter};
use tkom::lazy_stream_reader::LazyStreamReader;
use tkom::lexer::Lexer;
use tkom::lexer_utils::LexerOptions;
use tkom::parser::Parser;
use tkom::semantic_checker::SemanticChecker;
use tkom::std_functions::InputLine;
use tkom::tokens::FloatLiteral;
use tkom::value::Value;

/// Doubles computed with the machine's floating point.
struct Machine;

impl FloatArithmetic for Machine {
    fn from_literal(&self, literal: FloatLiteral) -> u64 {
        format!("{}.{:0width$}", literal.integral, literal.fraction, width = literal.fraction_digits as usize)
            .parse::<f64>()
            .unwrap()
            .to_bits()
    }
    fn from_i64(&self, value: i64) -> u64 {
        (value as f64).to_bits()
    }
    fn to_i64(&self, value: u64) -> i64 {
        f64::from_bits(value) as i64
    }
    fn to_text(&self, value: u64) -> String {
        f64::from_bits(value).to_string()
    }
    fn debug_text(&self, value: u64) -> String {
        format!("{:?}", f64::from_bits(value))
    }
    fn parse(&self, text: &str) -> Option<u64> {
        text.parse::<f64>().ok().map(|f| f.to_bits())
    }
    fn add(&self, a: u64, b: u64) -> u64 {
        (f64::from_bits(a) + f64::from_bits(b)).to_bits()
    }
    fn sub(&self, a: u64, b: u64) -> u64 {
        (f64::from_bits(a) - f64::from_bits(b)).to_bits()
    }
    fn mul(&self, a: u64, b: u64) -> u64 {
        (f64::from_bits(a) * f64::from_bits(b)).to_bits()
    }
    fn div(&self, a: u64, b: u64) -> u64 {
        (f64::from_bits(a) / f64::from_bits(b)).to_bits()
    }
}

fn setup_program(text: &str) -> Program {
    let options = LexerOptions { max_comment_length: 100, max_identifier_length: 100 };
    let reader = LazyStreamReader::new(text.as_bytes().to_vec());
    let lexer = Lexer::new(reader, options);
    let mut parser = Parser::new(lexer);
    let program = parser.parse().unwrap();
    let mut checker = SemanticChecker::new(&program).ok().unwrap();
    checker.check();
    assert!(checker.errors.len() == 0);
    program
}

fn create_interpreter<'a>(program: &'a Program) -> Interpreter<'a, Machine> {
    Interpreter::new(program, &Machine, vec![])
}

#[test]
fn if_statement() {
    let text = r#"
i64 x = 2;
i64 y = 2;
str text;
if (x == y) {
    text = "equal";
} else {
    text = "not equal";
}
"#;

    let program = setup_program(text);
    let mut interpreter = create_interpreter(&program);
    interpreter.interpret().unwrap();
    assert!(interpreter.stack().get_variable("text").unwrap() == Value::String(String::from("equal")));
}

#[test]
fn loop_with_break() {
    let text = r#"
i64 i = 0;
for (; i < 5; i = i + 1) {
  if (i == 2) {
    break;
  }
}
"#;

    let program = setup_program(text);
    let mut interpreter = create_interpreter(&program);
    interpreter.interpret().unwrap();
    assert!(interpreter.stack().get_variable("i").unwrap() == Value::I64(2));
}

#[test]
fn functions() {
    let text = r#"
fn add(i64 a, i64 b): i64 {
  return a + b;
}

i64 a = add(1, 2);
"#;

    let program = setup_program(text);
    let mut interpreter = create_interpreter(&program);
    interpreter.interpret().unwrap();
    assert!(interpreter.stack().get_variable("a").unwrap() == Value::I64(3));
}

#[test]
fn reference() {
    let text = r#"
fn foo(&i64 x): void {
  x = x + 1;
}

i64 x = 2;
foo(&x);
"#;

    let program = setup_program(text);
    let mut interpreter = create_interpreter(&program);
    interpreter.interpret().unwrap();
    assert!(interpreter.stack().get_variable("x").unwrap() == Value::I64(3));
}

#[test]
fn recursion() {
    let text = r#"
fn fib(i64 x): i64 {
  if (x == 1 || x == 2) {
    return 1;
  }

  return fib(x - 1) + fib(x - 2);
}

i64 x = fib(6);
"#;

    let program = setup_program(text);
    let mut interpreter = create_interpreter(&program);
    interpreter.interpret().unwrap();
    assert!(interpreter.stack().get_variable("x").unwrap() == Value::I64(8));
}

#[test]
fn is_prime() {
    let text = r#"
fn is_prime(i64 x): bool {
  if (x < 2) {
    return false;
  }

  for (i64 i = 2; i < x / 2; i = i + 1) {
    if (mod(x, i) == 0) {
      return false;
    }
  }

  return true;
}

bool is_5 = is_prime(5);
bool is_6 = is_prime(6);
"#;

    let program = setup_program(text);
    let mut interpreter = create_interpreter(&program);
    interpreter.interpret().unwrap();
    assert!(interpreter.stack().get_variable("is_5").unwrap() == Value::Bool(true));
    assert!(interpreter.stack().get_variable("is_6").unwrap() == Value::Bool(false));
}

#[test]
fn pattern_matching() {
    let text = r#"
str text;
i64 x = 10;
switch (x) {
  (x > 0) -> {
    text = ">0";
  }
  (x > 1) -> {
    text = ">1";
    break;
  }
  (x > 2) -> {
    text = ">2";
  }
}
"#;

    let program = setup_program(text);
    let mut interpreter = create_interpreter(&program);
    interpreter.interpret().unwrap();
    assert!(interpreter.stack().get_variable("text").unwrap() == Value::String(String::from(">1")));
}


#[test]
fn print_and_input_replay() {
    let text = r#"
    str name = input("Name: ");
    print("Hello " + name);
    "#;
    let program = setup_program(text);

    let mut first = Interpreter::new(&program, &Machine, vec![]);
    assert!(matches!(first.interpret(), Err(Halt::NeedsInput)));
    assert_eq!(first.output().clone(), vec![String::from("Name: ")]);

    let mut second = Interpreter::new(&program, &Machine, vec![InputLine::Line(String::from("  Ada \n"))]);
    assert!(second.interpret().is_ok());
    assert_eq!(second.output().clone(), vec![String::from("Name: "), String::from("Hello Ada\n")]);
    assert!(second.stack().get_variable("name").unwrap() == Value::String(String::from("Ada")));
}

#[test]
fn modulo_by_zero_is_an_error() {
    let program = setup_program("i64 x = mod(7, 0);");
    let mut interpreter = create_interpreter(&program);
    match interpreter.interpret() {
        Err(Halt::Failed(e)) => assert_eq!(
            e.message,
            "Attempt to calculate the remainder with a divisor of zero.\nAt line: 1, column: 16."
        ),
        _ => panic!("expected an error"),
    }
}

#[test]
fn variables_of_a_block_are_not_visible_after_it() {
    let program = setup_program("i64 x = 1; if (true) { i64 y = 2; x = y; }");
    let mut interpreter = create_interpreter(&program);
    interpreter.interpret().unwrap();
    assert!(interpreter.stack().get_variable("x").unwrap() == Value::I64(2));
    assert_eq!(interpreter.stack().get_variable("y").err().unwrap().message, "Variable 'y' not declared in this scope.");
}

#[test]
fn break_outside_loop_is_an_error() {
    let program = setup_program("if (true) { break; }");
    let mut interpreter = create_interpreter(&program);
    match interpreter.interpret() {
        Err(Halt::Failed(e)) => assert_eq!(e.message, "Break called outside 'for' or 'switch'.\nAt line: 1, column: 13."),
        _ => panic!("expected an error"),
    }
}

#[test]
fn semantic_check_reports_bad_calls() {
    let options = LexerOptions { max_comment_length: 100, max_identifier_length: 100 };
    let text = "fn foo(i64 x): void {}\nfoo();\nbar(1);\nprint(&x);";
    let reader = LazyStreamReader::new(text.as_bytes().to_vec());
    let lexer = Lexer::new(reader, options);
    let mut parser = Parser::new(lexer);
    let program = parser.parse().unwrap();
    let mut checker = SemanticChecker::new(&program).ok().unwrap();
    checker.check();
    let messages: Vec<String> = checker.errors.iter().map(|e| e.message.clone()).collect();
    assert_eq!(
        messages,
        vec![
            String::from("Invalid number of arguments for function 'foo'. Expected 1, given 0.\nAt line: 2, column: 1.\n"),
            String::from("Use of undeclared function 'bar'.\nAt line: 3, column: 1.\n"),
            String::from("Parameter in function 'print' passed by Reference - should be passed by Value.\nAt line: 4, column: 8.\n"),
        ]
    );
}

fn parse_only(text: &str) -> Program {
    let options = LexerOptions { max_comment_length: 100, max_identifier_length: 100 };
    let reader = LazyStreamReader::new(text.as_bytes().to_vec());
    let lexer = Lexer::new(reader, options);
    let mut parser = Parser::new(lexer);
    parser.parse().unwrap()
}

#[test]
fn value_of_the_wrong_return_type_is_an_error() {
    let program = parse_only("fn f(): i64 { return true; } i64 y = f();");
    let mut interpreter = create_interpreter(&program);
    match interpreter.interpret() {
        Err(Halt::Failed(e)) => {
            assert!(e.message.starts_with("Bad return type from function 'f'. Expected 'i64', but got 'Some(Bool(true))'."))
        },
        _ => panic!("expected an error"),
    }
}

#[test]
fn argument_of_the_wrong_type_is_an_error() {
    let program = parse_only("fn f(i64 x): void {} f(true);");
    let mut interpreter = create_interpreter(&program);
    match interpreter.interpret() {
        Err(Halt::Failed(e)) => assert!(e.message.starts_with("Function 'f' expected 'i64', but got 'bool'.")),
        _ => panic!("expected an error"),
    }
}

#[test]
fn more_arguments_than_parameters_is_an_error() {
    let program = parse_only("fn f(i64 x): void {} f(1, 2);");
    let mut interpreter = create_interpreter(&program);
    match interpreter.interpret() {
        Err(Halt::Failed(e)) => assert!(e.message.starts_with("Function 'f' was given more arguments than it has parameters.")),
        _ => panic!("expected an error"),
    }
}

#[test]
fn print_writes_the_value_of_its_argument() {
    let program = setup_program("str a = \"x\"; print(a); print(mod(7, 3) as str);");
    let mut interpreter = create_interpreter(&program);
    interpreter.interpret().unwrap();
    assert_eq!(interpreter.output().clone(), vec![String::from("x\n"), String::from("1\n")]);
}
