use tkom::ast::{Block, FunctionDeclaration, Node, Program, Type};
use tkom::char_reader::{CharRead, CharReader, Error, ReadCharError};
use tkom::lazy_stream_reader::ETX as ETX_CHAR;
use tkom::functions_manager::FunctionsManager;
use tkom::position::Position;
use tkom::std_functions::{trim, Console, InputLine, StdFunction, StdOutcome};
use tkom::value::Value;

fn default_position() -> Position {
    Position { line: 0, column: 0, offset: 0 }
}

fn create_function_ast(name: &str) -> Node<FunctionDeclaration> {
    Node {
        value: FunctionDeclaration {
            identifier: Node { value: String::from(name), position: default_position() },
            parameters: vec![],
            return_type: Node { value: Type::Void, position: default_position() },
            block: Node { value: Block(vec![]), position: default_position() },
        },
        position: default_position(),
    }
}

#[test]
fn inserts_new_function() {
    let functions = vec![create_function_ast("my_func")];

    let program = Program { statements: vec![], functions };

    let manager = FunctionsManager::new(&program).ok().unwrap();
    assert!(*manager.get("my_func").unwrap() == create_function_ast("my_func"));
}

#[test]
fn doesnt_allow_overwriting_std_functions() {
    let functions = vec![create_function_ast("print")];

    let program = Program { statements: vec![], functions };

    assert!(FunctionsManager::new(&program).is_err());
    assert_eq!(
        FunctionsManager::new(&program).err().unwrap().message,
        "Redeclaration of function 'print'.\nAt line: 0, column: 0.\n"
    );
}

#[test]
fn modulo_takes_the_sign_of_the_dividend() {
    let run = |a: i64, b: i64| match StdFunction::modulo(&vec![Value::I64(a), Value::I64(b)]) {
        StdOutcome::Returned(Some(v)) => v,
        _ => panic!("expected a value"),
    };
    assert!(run(7, 3) == Value::I64(1));
    assert!(run(-7, 3) == Value::I64(-1));
    assert!(run(7, -3) == Value::I64(1));
    assert!(matches!(StdFunction::modulo(&vec![Value::I64(1), Value::I64(0)]), StdOutcome::Failed(_)));
    match StdFunction::modulo(&vec![Value::I64(1), Value::Bool(true)]) {
        StdOutcome::Failed(e) => {
            assert_eq!(e.message, "Cannot perform modulo operation between values of types 'i64' and 'bool'.")
        }
        _ => panic!("expected an error"),
    }
}

#[test]
fn input_pauses_then_reads_a_trimmed_line() {
    let mut console = Console { output: vec![], input: vec![], consumed: 0 };
    let prompt = vec![Value::String(String::from("? "))];
    assert!(matches!(StdFunction::input(&prompt, &mut console), StdOutcome::NeedsInput));
    console.input.push(InputLine::Line(String::from("\t 42 \r\n")));
    match StdFunction::input(&prompt, &mut console) {
        StdOutcome::Returned(Some(v)) => assert!(v == Value::String(String::from("42"))),
        _ => panic!("expected a line"),
    }
    console.input.push(InputLine::Failed);
    match StdFunction::input(&prompt, &mut console) {
        StdOutcome::Failed(e) => assert_eq!(e.message, "Failed to read input."),
        _ => panic!("expected an error"),
    }
    assert_eq!(console.output, vec![String::from("? "), String::from("? "), String::from("? ")]);
}

#[test]
fn print_checks_its_argument() {
    let mut console = Console { output: vec![], input: vec![], consumed: 0 };
    match StdFunction::print(&vec![Value::I64(1)], &mut console) {
        StdOutcome::Failed(e) => assert_eq!(
            e.message,
            "Std function 'print' expected 'str' as the only argument, but was given 'i64'."
        ),
        _ => panic!("expected an error"),
    }
    assert!(matches!(StdFunction::print(&vec![Value::String(String::from("hi"))], &mut console), StdOutcome::Returned(None)));
    assert_eq!(console.output, vec![String::from("hi\n")]);
}

#[test]
fn trim_removes_unicode_whitespace() {
    assert_eq!(trim("  a b \u{3000}"), "a b");
    assert_eq!(trim(" \n\t"), "");
    assert_eq!(trim("x"), "x");
}

#[test]
fn char_reader_reads_utf8_and_newlines() {
    let mut reader = CharReader::new("zł\r\nb".as_bytes().to_vec());
    assert_eq!(reader.next().ok(), Some('z'));
    assert_eq!(reader.position().line, 1);
    assert_eq!(reader.position().column, 1);
    assert_eq!(reader.next().ok(), Some('ł'));
    assert_eq!(reader.position().column, 2);
    assert_eq!(reader.position().offset, 1);
    assert_eq!(reader.next().ok(), Some('\n'));
    assert_eq!(reader.position().offset, 3);
    assert_eq!(reader.next().ok(), Some('b'));
    assert_eq!(reader.position().line, 2);
    assert_eq!(reader.position().column, 1);
    assert_eq!(reader.position().offset, 5);
    assert_eq!(reader.next().ok(), Some(ETX_CHAR));
}

#[test]
fn char_reader_refuses_mixed_newlines() {
    let mut reader = CharReader::new("a\nb\r\n".as_bytes().to_vec());
    assert_eq!(reader.next().ok(), Some('a'));
    assert_eq!(reader.next().ok(), Some('\n'));
    assert_eq!(reader.next().ok(), Some('b'));
    match reader.next() {
        Err(Error::InconsistentNewline { expected, got }) => {
            assert_eq!(expected, vec![b'\n']);
            assert_eq!(got, vec![b'\r', b'\n']);
        }
        _ => panic!("expected an inconsistent newline"),
    }
}

#[test]
fn char_reader_refuses_bytes_that_are_no_utf8() {
    let mut reader = CharReader::new(vec![0xffu8, 0xff, 0xff, 0xff, 0xff, 0xff, 0xff]);
    match reader.next() {
        Err(Error::Read(ReadCharError::NotAnUtf8(bytes))) => assert_eq!(bytes, vec![0xffu8, 0xff, 0xff, 0xff, 0xff, 0xff, 0]),
        _ => panic!("expected invalid UTF-8"),
    }
    let mut short = CharReader::new(vec![0xe2u8, 0x82]);
    assert_eq!(short.next().ok(), Some(ETX_CHAR));
}
