use tkom::ast::{Argument, Block, Expression, FunctionDeclaration, Literal, Node, Parameter, PassedBy, Statement, SwitchCase, SwitchExpression, Type};
use tkom::parser::Parser;
use tkom::position::Position;
use tkom::token_stream::TokenStream;
use tkom::tokens::{FloatLiteral, Token, TokenCategory, TokenValue};

fn default_position() -> Position {
    Position { line: 0, column: 0, offset: 0 }
}

fn test_node<T>(value: T) -> Node<T> {
    Node { value, position: default_position() }
}

fn create_token(category: TokenCategory, value: TokenValue) -> Token {
    Token { category, value, position: default_position() }
}

fn create_error_message(text: String) -> String {
    format!("{}\nAt line: 0, column: 0.", text)
}

fn float_literal(integral: i64, fraction: i64, fraction_digits: i64) -> FloatLiteral {
    FloatLiteral { integral, fraction, fraction_digits }
}

#[test]
fn parse_statement_block_fail() {
    let token_series = vec![vec![
        create_token(TokenCategory::BraceOpen, TokenValue::Null),
        create_token(TokenCategory::ETX, TokenValue::Null),
    ]];

    for series in token_series {
        let mock_lexer = TokenStream::new(series);
        let mut parser = Parser::new(mock_lexer);

        assert_eq!(
            parser.parse_statement_block().err().unwrap().message,
            create_error_message(String::from("Couldn't create statement while parsing statement block."))
        );
    }
}

#[test]
fn parse_statement_block() {
    let token_series = vec![
        vec![
            create_token(TokenCategory::BraceOpen, TokenValue::Null),
            create_token(TokenCategory::BraceClose, TokenValue::Null),
            create_token(TokenCategory::ETX, TokenValue::Null),
        ],
        vec![
            create_token(TokenCategory::BraceOpen, TokenValue::Null),
            create_token(TokenCategory::Identifier, TokenValue::String(String::from("x"))),
            create_token(TokenCategory::Assign, TokenValue::Null),
            create_token(TokenCategory::I64Value, TokenValue::I64(5)),
            create_token(TokenCategory::Semicolon, TokenValue::Null),
            create_token(TokenCategory::BraceClose, TokenValue::Null),
            create_token(TokenCategory::ETX, TokenValue::Null),
        ],
        vec![
            create_token(TokenCategory::BraceOpen, TokenValue::Null),
            create_token(TokenCategory::Identifier, TokenValue::String(String::from("x"))),
            create_token(TokenCategory::Assign, TokenValue::Null),
            create_token(TokenCategory::I64Value, TokenValue::I64(5)),
            create_token(TokenCategory::Semicolon, TokenValue::Null),
            create_token(TokenCategory::Identifier, TokenValue::String(String::from("x"))),
            create_token(TokenCategory::Assign, TokenValue::Null),
            create_token(TokenCategory::I64Value, TokenValue::I64(5)),
            create_token(TokenCategory::Semicolon, TokenValue::Null),
            create_token(TokenCategory::BraceClose, TokenValue::Null),
            create_token(TokenCategory::ETX, TokenValue::Null),
        ],
    ];

    let expected = [
        Block(vec![]),
        Block(vec![test_node(Statement::Assignment {
            identifier: test_node(String::from("x")),
            value: test_node(Expression::Literal(Literal::I64(5))),
        })]),
        Block(vec![
            test_node(Statement::Assignment {
                identifier: test_node(String::from("x")),
                value: test_node(Expression::Literal(Literal::I64(5))),
            }),
            test_node(Statement::Assignment {
                identifier: test_node(String::from("x")),
                value: test_node(Expression::Literal(Literal::I64(5))),
            }),
        ]),
    ];

    for (idx, series) in token_series.iter().enumerate() {
        let mock_lexer = TokenStream::new(series.to_vec());
        let mut parser = Parser::new(mock_lexer);

        let node = parser.parse_statement_block().unwrap().unwrap();
        assert_eq!(node.value, expected[idx]);
    }
}

#[test]
fn parse_statement_fail() {
    let token_series = vec![vec![
        // i64 a = 5
        create_token(TokenCategory::I64, TokenValue::Null),
        create_token(TokenCategory::Identifier, TokenValue::String(String::from("a"))),
        create_token(TokenCategory::Assign, TokenValue::Null),
        create_token(TokenCategory::I64Value, TokenValue::I64(5)),
        create_token(TokenCategory::ETX, TokenValue::Null),
    ]];

    for series in token_series {
        let mock_lexer = TokenStream::new(series);
        let mut parser = Parser::new(mock_lexer);

        assert_eq!(
            parser.parse_statement().err().unwrap().message,
            create_error_message(String::from("Unexpected token - 'ETX'. Expected ';'."))
        );
    }
}

#[test]
fn parse_statement() {
    let token_series = vec![
        vec![
            // x = 5;
            create_token(TokenCategory::Identifier, TokenValue::String(String::from("x"))),
            create_token(TokenCategory::Assign, TokenValue::Null),
            create_token(TokenCategory::I64Value, TokenValue::I64(5)),
            create_token(TokenCategory::Semicolon, TokenValue::Null),
            create_token(TokenCategory::ETX, TokenValue::Null),
        ],
        vec![
            // print();
            create_token(TokenCategory::Identifier, TokenValue::String(String::from("print"))),
            create_token(TokenCategory::ParenOpen, TokenValue::Null),
            create_token(TokenCategory::ParenClose, TokenValue::Null),
            create_token(TokenCategory::Semicolon, TokenValue::Null),
            create_token(TokenCategory::ETX, TokenValue::Null),
        ],
        vec![
            // if (true) {}
            create_token(TokenCategory::If, TokenValue::Null),
            create_token(TokenCategory::ParenOpen, TokenValue::Null),
            create_token(TokenCategory::True, TokenValue::Null),
            create_token(TokenCategory::ParenClose, TokenValue::Null),
            create_token(TokenCategory::BraceOpen, TokenValue::Null),
            create_token(TokenCategory::BraceClose, TokenValue::Null),
            create_token(TokenCategory::ETX, TokenValue::Null),
        ],
        vec![
            // for(;true;) {}
            create_token(TokenCategory::For, TokenValue::Null),
            create_token(TokenCategory::ParenOpen, TokenValue::Null),
            create_token(TokenCategory::Semicolon, TokenValue::Null),
            create_token(TokenCategory::True, TokenValue::Null),
            create_token(TokenCategory::Semicolon, TokenValue::Null),
            create_token(TokenCategory::ParenClose, TokenValue::Null),
            create_token(TokenCategory::BraceOpen, TokenValue::Null),
            create_token(TokenCategory::BraceClose, TokenValue::Null),
            create_token(TokenCategory::ETX, TokenValue::Null),
        ],
        vec![
            // switch(x) {
            //      (true) -> {}
            // }
            create_token(TokenCategory::Switch, TokenValue::Null),
            create_token(TokenCategory::ParenOpen, TokenValue::Null),
            create_token(TokenCategory::Identifier, TokenValue::String(String::from("x"))),
            create_token(TokenCategory::ParenClose, TokenValue::Null),
            create_token(TokenCategory::BraceOpen, TokenValue::Null),
            create_token(TokenCategory::ParenOpen, TokenValue::Null),
            create_token(TokenCategory::True, TokenValue::Null),
            create_token(TokenCategory::ParenClose, TokenValue::Null),
            create_token(TokenCategory::Arrow, TokenValue::Null),
            create_token(TokenCategory::BraceOpen, TokenValue::Null),
            create_token(TokenCategory::BraceClose, TokenValue::Null),
            create_token(TokenCategory::BraceClose, TokenValue::Null),
            create_token(TokenCategory::ETX, TokenValue::Null),
        ],
        vec![
            // return;
            create_token(TokenCategory::Return, TokenValue::Null),
            create_token(TokenCategory::Semicolon, TokenValue::Null),
            create_token(TokenCategory::ETX, TokenValue::Null),
        ],
        vec![
            // break;
            create_token(TokenCategory::Break, TokenValue::Null),
            create_token(TokenCategory::Semicolon, TokenValue::Null),
            create_token(TokenCategory::ETX, TokenValue::Null),
        ],
        vec![
            // i64 a = 5;
            create_token(TokenCategory::I64, TokenValue::Null),
            create_token(TokenCategory::Identifier, TokenValue::String(String::from("a"))),
            create_token(TokenCategory::Assign, TokenValue::Null),
            create_token(TokenCategory::I64Value, TokenValue::I64(5)),
            create_token(TokenCategory::Semicolon, TokenValue::Null),
            create_token(TokenCategory::ETX, TokenValue::Null),
        ],
    ];

    let expected = [
        Statement::Assignment {
            identifier: test_node(String::from("x")),
            value: test_node(Expression::Literal(Literal::I64(5))),
        },
        Statement::FunctionCall {
            identifier: test_node(String::from("print")),
            arguments: vec![],
        },
        Statement::Conditional {
            condition: test_node(Expression::Literal(Literal::True)),
            if_block: test_node(Block(vec![])),
            else_block: None,
        },
        Statement::ForLoop {
            declaration: None,
            condition: test_node(Expression::Literal(Literal::True)),
            assignment: None,
            block: test_node(Block(vec![])),
        },
        Statement::Switch {
            expressions: vec![test_node(SwitchExpression {
                expression: test_node(Expression::Variable(String::from("x"))),
                alias: None,
            })],
            cases: vec![test_node(SwitchCase {
                condition: test_node(Expression::Literal(Literal::True)),
                block: test_node(Block(vec![])),
            })],
        },
        Statement::Return(None),
        Statement::Break,
        Statement::Declaration {
            var_type: test_node(Type::I64),
            identifier: test_node(String::from("a")),
            value: Some(test_node(Expression::Literal(Literal::I64(5)))),
        },
    ];

    for (idx, series) in token_series.iter().enumerate() {
        let mock_lexer = TokenStream::new(series.to_vec());
        let mut parser = Parser::new(mock_lexer);

        let node = parser.parse_statement().unwrap().unwrap();
        assert_eq!(node.value, expected[idx]);
    }
}

#[test]
fn parse_function_declaration_fail() {
    let token_series = [vec![
        // fn add(): , {}
        create_token(TokenCategory::Fn, TokenValue::Null),
        create_token(TokenCategory::Identifier, TokenValue::String(String::from("add"))),
        create_token(TokenCategory::ParenOpen, TokenValue::Null),
        create_token(TokenCategory::ParenClose, TokenValue::Null),
        create_token(TokenCategory::Colon, TokenValue::Null),
        create_token(TokenCategory::Comma, TokenValue::Null),
        create_token(TokenCategory::BraceOpen, TokenValue::Null),
        create_token(TokenCategory::BraceClose, TokenValue::Null),
        create_token(TokenCategory::ETX, TokenValue::Null),
    ]];

    for series in token_series {
        let mock_lexer = TokenStream::new(series);
        let mut parser = Parser::new(mock_lexer);

        assert_eq!(
            parser.parse_function_declaration().err().unwrap().message,
            create_error_message(String::from("Bad return type: ,. Expected one of: 'i64', 'f64', 'bool', 'str', 'void'."))
        );
    }
}

#[test]
fn parse_function_declaration() {
    let token_series = vec![
        vec![
            // fn add(): i64 {}
            create_token(TokenCategory::Fn, TokenValue::Null),
            create_token(TokenCategory::Identifier, TokenValue::String(String::from("add"))),
            create_token(TokenCategory::ParenOpen, TokenValue::Null),
            create_token(TokenCategory::ParenClose, TokenValue::Null),
            create_token(TokenCategory::Colon, TokenValue::Null),
            create_token(TokenCategory::I64, TokenValue::Null),
            create_token(TokenCategory::BraceOpen, TokenValue::Null),
            create_token(TokenCategory::BraceClose, TokenValue::Null),
            create_token(TokenCategory::ETX, TokenValue::Null),
        ],
        vec![
            // fn add(): void {}
            create_token(TokenCategory::Fn, TokenValue::Null),
            create_token(TokenCategory::Identifier, TokenValue::String(String::from("add"))),
            create_token(TokenCategory::ParenOpen, TokenValue::Null),
            create_token(TokenCategory::ParenClose, TokenValue::Null),
            create_token(TokenCategory::Colon, TokenValue::Null),
            create_token(TokenCategory::Void, TokenValue::Null),
            create_token(TokenCategory::BraceOpen, TokenValue::Null),
            create_token(TokenCategory::BraceClose, TokenValue::Null),
            create_token(TokenCategory::ETX, TokenValue::Null),
        ],
    ];

    let expected = [
        FunctionDeclaration {
            identifier: test_node(String::from("add")),
            parameters: vec![],
            return_type: test_node(Type::I64),
            block: test_node(Block(vec![])),
        },
        FunctionDeclaration {
            identifier: test_node(String::from("add")),
            parameters: vec![],
            return_type: test_node(Type::Void),
            block: test_node(Block(vec![])),
        },
    ];

    for (idx, series) in token_series.iter().enumerate() {
        let mock_lexer = TokenStream::new(series.to_vec());
        let mut parser = Parser::new(mock_lexer);

        let node = parser.parse_function_declaration().unwrap().unwrap();
        assert_eq!(node.value, expected[idx]);
    }
}

#[test]
fn parse_parameters_fail() {
    let tokens = vec![
        // i64 x,
        create_token(TokenCategory::I64, TokenValue::Null),
        create_token(TokenCategory::Identifier, TokenValue::String(String::from("x"))),
        create_token(TokenCategory::Comma, TokenValue::Null),
        create_token(TokenCategory::ETX, TokenValue::Null),
    ];

    let mock_lexer = TokenStream::new(tokens);
    let mut parser = Parser::new(mock_lexer);

    assert_eq!(
        parser.parse_parameters().err().unwrap().message,
        create_error_message(String::from("Couldn't create parameter while parsing parameters."))
    );
}

#[test]
fn parse_parameters() {
    let token_series = vec![
        vec![
            create_token(TokenCategory::ParenClose, TokenValue::Null),
            create_token(TokenCategory::ETX, TokenValue::Null),
        ],
        vec![
            // i64 x
            create_token(TokenCategory::I64, TokenValue::Null),
            create_token(TokenCategory::Identifier, TokenValue::String(String::from("x"))),
            create_token(TokenCategory::ETX, TokenValue::Null),
        ],
        vec![
            // i64 x, i64 y
            create_token(TokenCategory::I64, TokenValue::Null),
            create_token(TokenCategory::Identifier, TokenValue::String(String::from("x"))),
            create_token(TokenCategory::Comma, TokenValue::Null),
            create_token(TokenCategory::I64, TokenValue::Null),
            create_token(TokenCategory::Identifier, TokenValue::String(String::from("y"))),
            create_token(TokenCategory::ETX, TokenValue::Null),
        ],
    ];

    let expected = [
        vec![],
        vec![test_node(Parameter {
            passed_by: PassedBy::Value,
            parameter_type: test_node(Type::I64),
            identifier: test_node(String::from("x")),
        })],
        vec![
            test_node(Parameter {
                passed_by: PassedBy::Value,
                parameter_type: test_node(Type::I64),
                identifier: test_node(String::from("x")),
            }),
            test_node(Parameter {
                passed_by: PassedBy::Value,
                parameter_type: test_node(Type::I64),
                identifier: test_node(String::from("y")),
            }),
        ],
    ];

    for (idx, series) in token_series.iter().enumerate() {
        let mock_lexer = TokenStream::new(series.to_vec());
        let mut parser = Parser::new(mock_lexer);

        let vector = parser.parse_parameters().unwrap();
        assert_eq!(vector, expected[idx]);
    }
}

#[test]
fn parse_parameter() {
    let token_series = vec![
        vec![
            // &i64 x = 0
            create_token(TokenCategory::Reference, TokenValue::Null),
            create_token(TokenCategory::I64, TokenValue::Null),
            create_token(TokenCategory::Identifier, TokenValue::String(String::from("x"))),
            create_token(TokenCategory::Assign, TokenValue::Null),
            create_token(TokenCategory::I64Value, TokenValue::I64(0)),
            create_token(TokenCategory::ETX, TokenValue::Null),
        ],
        vec![
            // i64 x
            create_token(TokenCategory::I64, TokenValue::Null),
            create_token(TokenCategory::Identifier, TokenValue::String(String::from("x"))),
            create_token(TokenCategory::ETX, TokenValue::Null),
        ],
    ];

    let expected = [
        Parameter {
            passed_by: PassedBy::Reference,
            parameter_type: test_node(Type::I64),
            identifier: test_node(String::from("x")),
        },
        Parameter {
            passed_by: PassedBy::Value,
            parameter_type: test_node(Type::I64),
            identifier: test_node(String::from("x")),
        },
    ];

    for (idx, series) in token_series.iter().enumerate() {
        let mock_lexer = TokenStream::new(series.to_vec());
        let mut parser = Parser::new(mock_lexer);

        let node = parser.parse_parameter().unwrap().unwrap();
        assert_eq!(node.value, expected[idx]);
    }
}

#[test]
fn parse_for_statement_fail() {
    let token_series = [
        vec![
            // for (
            create_token(TokenCategory::For, TokenValue::Null),
            create_token(TokenCategory::ParenOpen, TokenValue::Null),
            create_token(TokenCategory::ETX, TokenValue::Null),
        ],
        vec![
            // for (;;) {}
            create_token(TokenCategory::For, TokenValue::Null),
            create_token(TokenCategory::ParenOpen, TokenValue::Null),
            create_token(TokenCategory::Semicolon, TokenValue::Null),
            create_token(TokenCategory::Semicolon, TokenValue::Null),
            create_token(TokenCategory::ParenClose, TokenValue::Null),
            create_token(TokenCategory::BraceOpen, TokenValue::Null),
            create_token(TokenCategory::BraceClose, TokenValue::Null),
            create_token(TokenCategory::ETX, TokenValue::Null),
        ],
        vec![
            //  for (;x; {}
            create_token(TokenCategory::For, TokenValue::Null),
            create_token(TokenCategory::ParenOpen, TokenValue::Null),
            create_token(TokenCategory::Semicolon, TokenValue::Null),
            create_token(TokenCategory::Identifier, TokenValue::String(String::from("x"))),
            create_token(TokenCategory::Semicolon, TokenValue::Null),
            create_token(TokenCategory::BraceOpen, TokenValue::Null),
            create_token(TokenCategory::BraceClose, TokenValue::Null),
            create_token(TokenCategory::ETX, TokenValue::Null),
        ],
    ];

    let expected = [
        String::from("Unexpected token - 'ETX'. Expected ';'."),
        String::from("Couldn't create expression while parsing for statement."),
        String::from("Unexpected token - '{'. Expected ')'."),
    ];

    for idx in 0..token_series.len() {
        let mock_lexer = TokenStream::new(token_series[idx].clone());
        let mut parser = Parser::new(mock_lexer);

        assert_eq!(
            parser.parse_for_statement().err().unwrap().message,
            create_error_message(expected[idx].clone())
        );
    }
}

#[test]
fn parse_for_statement() {
    let token_series = vec![
        vec![
            // for (i64 x = 0; x < 5; x = x + 1) {}
            create_token(TokenCategory::For, TokenValue::Null),
            create_token(TokenCategory::ParenOpen, TokenValue::Null),
            create_token(TokenCategory::I64, TokenValue::Null),
            create_token(TokenCategory::Identifier, TokenValue::String(String::from("x"))),
            create_token(TokenCategory::Assign, TokenValue::Null),
            create_token(TokenCategory::I64Value, TokenValue::I64(0)),
            create_token(TokenCategory::Semicolon, TokenValue::Null),
            create_token(TokenCategory::Identifier, TokenValue::String(String::from("x"))),
            create_token(TokenCategory::Less, TokenValue::Null),
            create_token(TokenCategory::I64Value, TokenValue::I64(5)),
            create_token(TokenCategory::Semicolon, TokenValue::Null),
            create_token(TokenCategory::Identifier, TokenValue::String(String::from("x"))),
            create_token(TokenCategory::Assign, TokenValue::Null),
            create_token(TokenCategory::Identifier, TokenValue::String(String::from("x"))),
            create_token(TokenCategory::Plus, TokenValue::Null),
            create_token(TokenCategory::I64Value, TokenValue::I64(1)),
            create_token(TokenCategory::ParenClose, TokenValue::Null),
            create_token(TokenCategory::BraceOpen, TokenValue::Null),
            create_token(TokenCategory::BraceClose, TokenValue::Null),
            create_token(TokenCategory::ETX, TokenValue::Null),
        ],
        vec![
            // for (;x < 5;) {}
            create_token(TokenCategory::For, TokenValue::Null),
            create_token(TokenCategory::ParenOpen, TokenValue::Null),
            create_token(TokenCategory::Semicolon, TokenValue::Null),
            create_token(TokenCategory::Identifier, TokenValue::String(String::from("x"))),
            create_token(TokenCategory::Less, TokenValue::Null),
            create_token(TokenCategory::I64Value, TokenValue::I64(5)),
            create_token(TokenCategory::Semicolon, TokenValue::Null),
            create_token(TokenCategory::ParenClose, TokenValue::Null),
            create_token(TokenCategory::BraceOpen, TokenValue::Null),
            create_token(TokenCategory::BraceClose, TokenValue::Null),
            create_token(TokenCategory::ETX, TokenValue::Null),
        ],
    ];

    let expected = vec![
        Statement::ForLoop {
            declaration: Some(Box::new(test_node(Statement::Declaration {
                var_type: test_node(Type::I64),
                identifier: test_node(String::from("x")),
                value: Some(test_node(Expression::Literal(Literal::I64(0)))),
            }))),
            condition: test_node(Expression::Less(
                Box::new(test_node(Expression::Variable(String::from("x")))),
                Box::new(test_node(Expression::Literal(Literal::I64(5)))),
            )),
            assignment: Some(Box::new(test_node(Statement::Assignment {
                identifier: test_node(String::from("x")),
                value: test_node(Expression::Addition(
                    Box::new(test_node(Expression::Variable(String::from("x")))),
                    Box::new(test_node(Expression::Literal(Literal::I64(1)))),
                )),
            }))),
            block: test_node(Block(vec![])),
        },
        Statement::ForLoop {
            declaration: None,
            condition: test_node(Expression::Less(
                Box::new(test_node(Expression::Variable(String::from("x")))),
                Box::new(test_node(Expression::Literal(Literal::I64(5)))),
            )),
            assignment: None,
            block: test_node(Block(vec![])),
        },
    ];

    for (idx, series) in token_series.iter().enumerate() {
        let mock_lexer = TokenStream::new(series.to_vec());
        let mut parser = Parser::new(mock_lexer);

        let node = parser.parse_for_statement().unwrap().unwrap();
        assert_eq!(node.value, expected[idx]);
    }
}

#[test]
fn parse_if_statement_fail() {
    let token_series = [
        vec![
            // if true) {}
            create_token(TokenCategory::If, TokenValue::Null),
            create_token(TokenCategory::True, TokenValue::Null),
            create_token(TokenCategory::ParenClose, TokenValue::Null),
            create_token(TokenCategory::BraceOpen, TokenValue::Null),
            create_token(TokenCategory::BraceClose, TokenValue::Null),
            create_token(TokenCategory::ETX, TokenValue::Null),
        ],
        vec![
            // if (true {}
            create_token(TokenCategory::If, TokenValue::Null),
            create_token(TokenCategory::ParenOpen, TokenValue::Null),
            create_token(TokenCategory::True, TokenValue::Null),
            create_token(TokenCategory::BraceOpen, TokenValue::Null),
            create_token(TokenCategory::BraceClose, TokenValue::Null),
            create_token(TokenCategory::ETX, TokenValue::Null),
        ],
    ];

    let expected = [
        String::from("Unexpected token - 'true'. Expected '('."),
        String::from("Unexpected token - '{'. Expected ')'."),
    ];

    for idx in 0..token_series.len() {
        let mock_lexer = TokenStream::new(token_series[idx].to_vec());
        let mut parser = Parser::new(mock_lexer);

        assert_eq!(
            parser.parse_if_statement().err().unwrap().message,
            create_error_message(expected[idx].clone())
        );
    }
}

#[test]
fn parse_if_statement() {
    let token_series = vec![
        vec![
            // if (true) {}
            create_token(TokenCategory::If, TokenValue::Null),
            create_token(TokenCategory::ParenOpen, TokenValue::Null),
            create_token(TokenCategory::True, TokenValue::Null),
            create_token(TokenCategory::ParenClose, TokenValue::Null),
            create_token(TokenCategory::BraceOpen, TokenValue::Null),
            create_token(TokenCategory::BraceClose, TokenValue::Null),
            create_token(TokenCategory::ETX, TokenValue::Null),
        ],
        vec![
            // if (true) {} else {}
            create_token(TokenCategory::If, TokenValue::Null),
            create_token(TokenCategory::ParenOpen, TokenValue::Null),
            create_token(TokenCategory::True, TokenValue::Null),
            create_token(TokenCategory::ParenClose, TokenValue::Null),
            create_token(TokenCategory::BraceOpen, TokenValue::Null),
            create_token(TokenCategory::BraceClose, TokenValue::Null),
            create_token(TokenCategory::Else, TokenValue::Null),
            create_token(TokenCategory::BraceOpen, TokenValue::Null),
            create_token(TokenCategory::BraceClose, TokenValue::Null),
            create_token(TokenCategory::ETX, TokenValue::Null),
        ],
    ];

    let expected = vec![
        Statement::Conditional {
            condition: test_node(Expression::Literal(Literal::True)),
            if_block: test_node(Block(vec![])),
            else_block: None,
        },
        Statement::Conditional {
            condition: test_node(Expression::Literal(Literal::True)),
            if_block: test_node(Block(vec![])),
            else_block: Some(test_node(Block(vec![]))),
        },
    ];

    for (idx, series) in token_series.iter().enumerate() {
        let mock_lexer = TokenStream::new(series.to_vec());
        let mut parser = Parser::new(mock_lexer);

        let node = parser.parse_if_statement().unwrap().unwrap();
        assert_eq!(node.value, expected[idx]);
    }
}

#[test]
fn parse_assign_or_call_fail() {
    let token_series = [
        vec![
            // print(;
            create_token(TokenCategory::Identifier, TokenValue::String(String::from("print"))),
            create_token(TokenCategory::ParenOpen, TokenValue::Null),
            create_token(TokenCategory::Semicolon, TokenValue::Null),
            create_token(TokenCategory::ETX, TokenValue::Null),
        ],
        vec![
            // print()
            create_token(TokenCategory::Identifier, TokenValue::String(String::from("print"))),
            create_token(TokenCategory::ParenOpen, TokenValue::Null),
            create_token(TokenCategory::ParenClose, TokenValue::Null),
            create_token(TokenCategory::ETX, TokenValue::Null),
        ],
        vec![
            // x = 5
            create_token(TokenCategory::Identifier, TokenValue::String(String::from("x"))),
            create_token(TokenCategory::Assign, TokenValue::Null),
            create_token(TokenCategory::I64Value, TokenValue::I64(5)),
            create_token(TokenCategory::ETX, TokenValue::Null),
        ],
        vec![
            create_token(TokenCategory::Identifier, TokenValue::String(String::from("x"))),
            create_token(TokenCategory::Comma, TokenValue::Null),
            create_token(TokenCategory::ETX, TokenValue::Null),
        ],
    ];

    let expected = [
        String::from("Unexpected token - ';'. Expected ')'."),
        String::from("Unexpected token - 'ETX'. Expected ';'."),
        String::from("Unexpected token - 'ETX'. Expected ';'."),
        String::from("Couldn't create assignment or call."),
    ];

    for idx in 0..token_series.len() {
        let mock_lexer = TokenStream::new(token_series[idx].clone());
        let mut parser = Parser::new(mock_lexer);

        assert_eq!(
            parser.parse_assign_or_call().err().unwrap().message,
            create_error_message(expected[idx].clone())
        );
    }
}

#[test]
fn parse_assign_or_call() {
    let token_series = vec![
        vec![
            // print();
            create_token(TokenCategory::Identifier, TokenValue::String(String::from("print"))),
            create_token(TokenCategory::ParenOpen, TokenValue::Null),
            create_token(TokenCategory::ParenClose, TokenValue::Null),
            create_token(TokenCategory::Semicolon, TokenValue::Null),
            create_token(TokenCategory::ETX, TokenValue::Null),
        ],
        vec![
            // x = 5;
            create_token(TokenCategory::Identifier, TokenValue::String(String::from("x"))),
            create_token(TokenCategory::Assign, TokenValue::Null),
            create_token(TokenCategory::I64Value, TokenValue::I64(5)),
            create_token(TokenCategory::Semicolon, TokenValue::Null),
            create_token(TokenCategory::ETX, TokenValue::Null),
        ],
    ];

    let expected = vec![
        Statement::FunctionCall {
            identifier: test_node(String::from("print")),
            arguments: vec![],
        },
        Statement::Assignment {
            identifier: test_node(String::from("x")),
            value: test_node(Expression::Literal(Literal::I64(5))),
        },
    ];

    for (idx, series) in token_series.iter().enumerate() {
        let mock_lexer = TokenStream::new(series.to_vec());
        let mut parser = Parser::new(mock_lexer);

        let node = parser.parse_assign_or_call().unwrap().unwrap();
        assert_eq!(node.value, expected[idx]);
    }
}

#[test]
fn parse_declaration() {
    let token_series = vec![
        vec![
            // i64 a
            create_token(TokenCategory::I64, TokenValue::Null),
            create_token(TokenCategory::Identifier, TokenValue::String(String::from("a"))),
            create_token(TokenCategory::ETX, TokenValue::Null),
        ],
        vec![
            // i64 a = 5
            create_token(TokenCategory::I64, TokenValue::Null),
            create_token(TokenCategory::Identifier, TokenValue::String(String::from("a"))),
            create_token(TokenCategory::Assign, TokenValue::Null),
            create_token(TokenCategory::I64Value, TokenValue::I64(5)),
            create_token(TokenCategory::ETX, TokenValue::Null),
        ],
    ];

    let expected = vec![
        Statement::Declaration {
            var_type: test_node(Type::I64),
            identifier: test_node(String::from("a")),
            value: None,
        },
        Statement::Declaration {
            var_type: test_node(Type::I64),
            identifier: test_node(String::from("a")),
            value: Some(test_node(Expression::Literal(Literal::I64(5)))),
        },
    ];

    for (idx, series) in token_series.iter().enumerate() {
        let mock_lexer = TokenStream::new(series.to_vec());
        let mut parser = Parser::new(mock_lexer);

        let node = parser.parse_declaration().unwrap().unwrap();
        assert_eq!(node.value, expected[idx]);
    }
}

#[test]
fn parse_return_statement_fail() {
    let token_series = vec![
        vec![
            // return
            create_token(TokenCategory::Return, TokenValue::Null),
            create_token(TokenCategory::ETX, TokenValue::Null),
        ],
        vec![
            // return 5
            create_token(TokenCategory::Return, TokenValue::Null),
            create_token(TokenCategory::I64Value, TokenValue::I64(5)),
            create_token(TokenCategory::ETX, TokenValue::Null),
        ],
    ];

    for series in token_series {
        let mock_lexer = TokenStream::new(series);
        let mut parser = Parser::new(mock_lexer);

        assert_eq!(
            parser.parse_return_statement().err().unwrap().message,
            create_error_message(String::from("Unexpected token - 'ETX'. Expected ';'."))
        );
    }
}

#[test]
fn parse_return_statement() {
    let token_series = vec![
        vec![
            // return;
            create_token(TokenCategory::Return, TokenValue::Null),
            create_token(TokenCategory::Semicolon, TokenValue::Null),
            create_token(TokenCategory::ETX, TokenValue::Null),
        ],
        vec![
            // return 5;
            create_token(TokenCategory::Return, TokenValue::Null),
            create_token(TokenCategory::I64Value, TokenValue::I64(5)),
            create_token(TokenCategory::Semicolon, TokenValue::Null),
            create_token(TokenCategory::ETX, TokenValue::Null),
        ],
    ];

    let expected = vec![
        Statement::Return(None),
        Statement::Return(Some(test_node(Expression::Literal(Literal::I64(5))))),
    ];

    for (idx, series) in token_series.iter().enumerate() {
        let mock_lexer = TokenStream::new(series.to_vec());
        let mut parser = Parser::new(mock_lexer);

        let node = parser.parse_return_statement().unwrap().unwrap();
        assert_eq!(node.value, expected[idx]);
    }
}

#[test]
fn parse_break_statement_fail() {
    let token_series = [vec![
        // break
        create_token(TokenCategory::Break, TokenValue::Null),
        create_token(TokenCategory::ETX, TokenValue::Null),
    ]];

    for series in token_series {
        let mock_lexer = TokenStream::new(series);
        let mut parser = Parser::new(mock_lexer);

        assert_eq!(
            parser.parse_break_statement().err().unwrap().message,
            create_error_message(String::from("Unexpected token - 'ETX'. Expected ';'."))
        );
    }
}

#[test]
fn parse_break_statement() {
    let tokens = vec![
        // break;
        create_token(TokenCategory::Break, TokenValue::Null),
        create_token(TokenCategory::Semicolon, TokenValue::Null),
        create_token(TokenCategory::ETX, TokenValue::Null),
    ];

    let mock_lexer = TokenStream::new(tokens);
    let mut parser = Parser::new(mock_lexer);

    let node = parser.parse_break_statement().unwrap().unwrap();
    assert_eq!(node.value, Statement::Break);
}

#[test]
fn parse_arguments_comma_end() {
    let tokens = vec![
        // 1,
        create_token(TokenCategory::I64Value, TokenValue::I64(1)),
        create_token(TokenCategory::Comma, TokenValue::Null),
        create_token(TokenCategory::ETX, TokenValue::Null),
    ];

    let mock_lexer = TokenStream::new(tokens);
    let mut parser = Parser::new(mock_lexer);

    assert_eq!(
        parser.parse_arguments().err().unwrap().message,
        create_error_message(String::from("Couldn't create argument while parsing arguments."))
    );
}

#[test]
fn parse_arguments() {
    let token_series = vec![
        vec![
            create_token(TokenCategory::ParenClose, TokenValue::Null),
            create_token(TokenCategory::ETX, TokenValue::Null),
        ],
        vec![
            // 1
            create_token(TokenCategory::I64Value, TokenValue::I64(1)),
            create_token(TokenCategory::ETX, TokenValue::Null),
        ],
        vec![
            // 1, 2
            create_token(TokenCategory::Reference, TokenValue::Null),
            create_token(TokenCategory::I64Value, TokenValue::I64(1)),
            create_token(TokenCategory::Comma, TokenValue::Null),
            create_token(TokenCategory::I64Value, TokenValue::I64(2)),
            create_token(TokenCategory::ETX, TokenValue::Null),
        ],
    ];

    let expected = vec![
        vec![],
        vec![test_node(Argument {
            value: test_node(Expression::Literal(Literal::I64(1))),
            passed_by: PassedBy::Value
        })],
        vec![
            test_node(Argument {
                value: test_node(Expression::Literal(Literal::I64(1))),
                passed_by: PassedBy::Reference
            }),
            test_node(Argument {
                value: test_node(Expression::Literal(Literal::I64(2))),
                passed_by: PassedBy::Value
            }),
        ],
    ];

    for (idx, series) in token_series.iter().enumerate() {
        let mock_lexer = TokenStream::new(series.to_vec());
        let mut parser = Parser::new(mock_lexer);

        let vector = parser.parse_arguments().unwrap();
        assert_eq!(vector, expected[idx]);
    }
}

#[test]
fn parse_argument() {
    let token_series = vec![
        vec![
            // 1
            create_token(TokenCategory::I64Value, TokenValue::I64(1)),
            create_token(TokenCategory::ETX, TokenValue::Null),
        ],
        vec![
            // &x
            create_token(TokenCategory::Reference, TokenValue::Null),
            create_token(TokenCategory::Identifier, TokenValue::String(String::from("x"))),
            create_token(TokenCategory::ETX, TokenValue::Null),
        ],
    ];

    let expected = vec![
        Argument {
            value: test_node(Expression::Literal(Literal::I64(1))),
            passed_by: PassedBy::Value,
        },
        Argument {
            value: test_node(Expression::Variable(String::from("x"))),
            passed_by: PassedBy::Reference,
        },
    ];

    for (idx, series) in token_series.iter().enumerate() {
        let mock_lexer = TokenStream::new(series.to_vec());
        let mut parser = Parser::new(mock_lexer);

        let node = parser.parse_argument().unwrap().unwrap();
        assert_eq!(node.value, expected[idx]);
    }
}

#[test]
fn parse_expression() {
    let tokens = vec![
        // a || b || c
        create_token(TokenCategory::Identifier, TokenValue::String(String::from("a"))),
        create_token(TokenCategory::Or, TokenValue::Null),
        create_token(TokenCategory::Identifier, TokenValue::String(String::from("b"))),
        create_token(TokenCategory::Or, TokenValue::Null),
        create_token(TokenCategory::Identifier, TokenValue::String(String::from("c"))),
        create_token(TokenCategory::ETX, TokenValue::Null),
    ];

    let mock_lexer = TokenStream::new(tokens);
    let mut parser = Parser::new(mock_lexer);

    let node = parser.parse_expression().unwrap().unwrap();
    assert_eq!(
        node,
        test_node(Expression::Alternative(
            Box::new(test_node(Expression::Alternative(
                Box::new(test_node(Expression::Variable(String::from("a")))),
                Box::new(test_node(Expression::Variable(String::from("b")))),
            ))),
            Box::new(test_node(Expression::Variable(String::from("c")))),
        ))
    );
}

#[test]
fn parse_concatenation_term() {
    let tokens = vec![
        // a && b && c
        create_token(TokenCategory::Identifier, TokenValue::String(String::from("a"))),
        create_token(TokenCategory::And, TokenValue::Null),
        create_token(TokenCategory::Identifier, TokenValue::String(String::from("b"))),
        create_token(TokenCategory::And, TokenValue::Null),
        create_token(TokenCategory::Identifier, TokenValue::String(String::from("c"))),
        create_token(TokenCategory::ETX, TokenValue::Null),
    ];

    let mock_lexer = TokenStream::new(tokens);
    let mut parser = Parser::new(mock_lexer);

    let node = parser.parse_concatenation_term().unwrap().unwrap();
    assert_eq!(
        node,
        test_node(Expression::Concatenation(
            Box::new(test_node(Expression::Concatenation(
                Box::new(test_node(Expression::Variable(String::from("a")))),
                Box::new(test_node(Expression::Variable(String::from("b")))),
            ))),
            Box::new(test_node(Expression::Variable(String::from("c")))),
        ))
    );
}

#[test]
fn parse_relation_term() {
    let token_series = vec![
        vec![
            // 1 == 2
            create_token(TokenCategory::I64Value, TokenValue::I64(1)),
            create_token(TokenCategory::Equal, TokenValue::Null),
            create_token(TokenCategory::I64Value, TokenValue::I64(2)),
            create_token(TokenCategory::ETX, TokenValue::Null),
        ],
        vec![
            // 1 != 2
            create_token(TokenCategory::I64Value, TokenValue::I64(1)),
            create_token(TokenCategory::NotEqual, TokenValue::Null),
            create_token(TokenCategory::I64Value, TokenValue::I64(2)),
            create_token(TokenCategory::ETX, TokenValue::Null),
        ],
        vec![
            // 1 > 2
            create_token(TokenCategory::I64Value, TokenValue::I64(1)),
            create_token(TokenCategory::Greater, TokenValue::Null),
            create_token(TokenCategory::I64Value, TokenValue::I64(2)),
            create_token(TokenCategory::ETX, TokenValue::Null),
        ],
        vec![
            // 1 >= 2
            create_token(TokenCategory::I64Value, TokenValue::I64(1)),
            create_token(TokenCategory::GreaterOrEqual, TokenValue::Null),
            create_token(TokenCategory::I64Value, TokenValue::I64(2)),
            create_token(TokenCategory::ETX, TokenValue::Null),
        ],
        vec![
            // 1 < 2
            create_token(TokenCategory::I64Value, TokenValue::I64(1)),
            create_token(TokenCategory::Less, TokenValue::Null),
            create_token(TokenCategory::I64Value, TokenValue::I64(2)),
            create_token(TokenCategory::ETX, TokenValue::Null),
        ],
        vec![
            // 1 <= 2
            create_token(TokenCategory::I64Value, TokenValue::I64(1)),
            create_token(TokenCategory::LessOrEqual, TokenValue::Null),
            create_token(TokenCategory::I64Value, TokenValue::I64(2)),
            create_token(TokenCategory::ETX, TokenValue::Null),
        ],
        vec![
            // 1
            create_token(TokenCategory::I64Value, TokenValue::I64(1)),
            create_token(TokenCategory::ETX, TokenValue::Null),
        ],
    ];

    let expected = [
        Expression::Equal(
            Box::new(test_node(Expression::Literal(Literal::I64(1)))),
            Box::new(test_node(Expression::Literal(Literal::I64(2)))),
        ),
        Expression::NotEqual(
            Box::new(test_node(Expression::Literal(Literal::I64(1)))),
            Box::new(test_node(Expression::Literal(Literal::I64(2)))),
        ),
        Expression::Greater(
            Box::new(test_node(Expression::Literal(Literal::I64(1)))),
            Box::new(test_node(Expression::Literal(Literal::I64(2)))),
        ),
        Expression::GreaterEqual(
            Box::new(test_node(Expression::Literal(Literal::I64(1)))),
            Box::new(test_node(Expression::Literal(Literal::I64(2)))),
        ),
        Expression::Less(
            Box::new(test_node(Expression::Literal(Literal::I64(1)))),
            Box::new(test_node(Expression::Literal(Literal::I64(2)))),
        ),
        Expression::LessEqual(
            Box::new(test_node(Expression::Literal(Literal::I64(1)))),
            Box::new(test_node(Expression::Literal(Literal::I64(2)))),
        ),
        Expression::Literal(Literal::I64(1)),
    ];

    for (idx, series) in token_series.iter().enumerate() {
        let mock_lexer = TokenStream::new(series.to_vec());
        let mut parser = Parser::new(mock_lexer);

        let node = parser.parse_relation_term().unwrap().unwrap();
        assert_eq!(node.value, expected[idx]);
    }
}

#[test]
fn parse_additive_term() {
    // 5 + 2.0 - x
    let tokens = vec![
        create_token(TokenCategory::I64Value, TokenValue::I64(5)),
        create_token(TokenCategory::Plus, TokenValue::Null),
        create_token(TokenCategory::F64Value, TokenValue::F64(float_literal(2, 0, 1))),
        create_token(TokenCategory::Minus, TokenValue::Null),
        create_token(TokenCategory::Identifier, TokenValue::String(String::from("x"))),
        create_token(TokenCategory::ETX, TokenValue::Null),
    ];

    let mock_lexer = TokenStream::new(tokens);
    let mut parser = Parser::new(mock_lexer);

    let node = parser.parse_additive_term().unwrap().unwrap();
    assert_eq!(
        node,
        test_node(Expression::Subtraction(
            Box::new(test_node(Expression::Addition(
                Box::new(test_node(Expression::Literal(Literal::I64(5)))),
                Box::new(test_node(Expression::Literal(Literal::F64(float_literal(2, 0, 1)))))
            ))),
            Box::new(test_node(Expression::Variable(String::from("x"))))
        ))
    )
}

#[test]
fn parse_multiplicative_term() {
    let tokens = vec![
        // 5 * 2.0 / x
        create_token(TokenCategory::I64Value, TokenValue::I64(5)),
        create_token(TokenCategory::Multiply, TokenValue::Null),
        create_token(TokenCategory::F64Value, TokenValue::F64(float_literal(2, 0, 1))),
        create_token(TokenCategory::Divide, TokenValue::Null),
        create_token(TokenCategory::Identifier, TokenValue::String(String::from("x"))),
        create_token(TokenCategory::ETX, TokenValue::Null),
    ];

    let mock_lexer = TokenStream::new(tokens);
    let mut parser = Parser::new(mock_lexer);

    let node = parser.parse_multiplicative_term().unwrap().unwrap();
    assert_eq!(
        node,
        test_node(Expression::Division(
            Box::new(test_node(Expression::Multiplication(
                Box::new(test_node(Expression::Literal(Literal::I64(5)))),
                Box::new(test_node(Expression::Literal(Literal::F64(float_literal(2, 0, 1)))))
            ))),
            Box::new(test_node(Expression::Variable(String::from("x"))))
        ))
    )
}

#[test]
fn parse_casted_term() {
    let token_series = vec![
        vec![
            // 5 as str
            create_token(TokenCategory::I64Value, TokenValue::I64(5)),
            create_token(TokenCategory::As, TokenValue::Null),
            create_token(TokenCategory::String, TokenValue::Null),
            create_token(TokenCategory::ETX, TokenValue::Null),
        ],
        vec![
            // 5
            create_token(TokenCategory::I64Value, TokenValue::I64(5)),
            create_token(TokenCategory::ETX, TokenValue::Null),
        ],
    ];

    let expected = vec![
        Expression::Casting {
            value: Box::new(test_node(Expression::Literal(Literal::I64(5)))),
            to_type: test_node(Type::Str),
        },
        Expression::Literal(Literal::I64(5)),
    ];

    for (idx, series) in token_series.iter().enumerate() {
        let mock_lexer = TokenStream::new(series.to_vec());
        let mut parser = Parser::new(mock_lexer);

        let node = parser.parse_casted_term().unwrap().unwrap();
        assert_eq!(node.value, expected[idx]);
    }
}

#[test]
fn parse_unary_term() {
    let token_series = vec![
        vec![
            // !True
            create_token(TokenCategory::Negate, TokenValue::Null),
            create_token(TokenCategory::True, TokenValue::Null),
            create_token(TokenCategory::ETX, TokenValue::Null),
        ],
        vec![
            // -5
            create_token(TokenCategory::Minus, TokenValue::Null),
            create_token(TokenCategory::I64Value, TokenValue::I64(5)),
            create_token(TokenCategory::ETX, TokenValue::Null),
        ],
        vec![
            // 5
            create_token(TokenCategory::I64Value, TokenValue::I64(5)),
            create_token(TokenCategory::ETX, TokenValue::Null),
        ],
    ];

    let expected = [
        Expression::BooleanNegation(Box::new(test_node(Expression::Literal(Literal::True)))),
        Expression::ArithmeticNegation(Box::new(test_node(Expression::Literal(Literal::I64(5))))),
        Expression::Literal(Literal::I64(5)),
    ];

    for (idx, series) in token_series.iter().enumerate() {
        let mock_lexer = TokenStream::new(series.to_vec());
        let mut parser = Parser::new(mock_lexer);

        let node = parser.parse_unary_term().unwrap().unwrap();
        assert_eq!(node.value, expected[idx]);
    }
}

#[test]
fn parse_factor() {
    let token_series = vec![
        // (5 + 2)
        vec![
            create_token(TokenCategory::ParenOpen, TokenValue::Null),
            create_token(TokenCategory::I64Value, TokenValue::I64(5)),
            create_token(TokenCategory::Plus, TokenValue::Null),
            create_token(TokenCategory::I64Value, TokenValue::I64(2)),
            create_token(TokenCategory::ParenClose, TokenValue::Null),
            create_token(TokenCategory::ETX, TokenValue::Null),
        ],
        vec![
            // 5
            create_token(TokenCategory::I64Value, TokenValue::I64(5)),
            create_token(TokenCategory::ETX, TokenValue::Null),
        ],
        vec![
            // print
            create_token(TokenCategory::Identifier, TokenValue::String(String::from("print"))),
            create_token(TokenCategory::ETX, TokenValue::Null),
        ],
    ];

    let expected = vec![
        Expression::Addition(
            Box::new(test_node(Expression::Literal(Literal::I64(5)))),
            Box::new(test_node(Expression::Literal(Literal::I64(2)))),
        ),
        Expression::Literal(Literal::I64(5)),
        Expression::Variable(String::from("print")),
    ];

    for (idx, series) in token_series.iter().enumerate() {
        let mock_lexer = TokenStream::new(series.to_vec());
        let mut parser = Parser::new(mock_lexer);

        let node = parser.parse_factor().unwrap().unwrap();
        assert_eq!(node.value, expected[idx]);
    }
}

#[test]
fn parse_factor_nested_expression_unclosed() {
    let tokens = vec![
        // (5 + 2
        create_token(TokenCategory::ParenOpen, TokenValue::Null),
        create_token(TokenCategory::I64Value, TokenValue::I64(5)),
        create_token(TokenCategory::Plus, TokenValue::Null),
        create_token(TokenCategory::I64Value, TokenValue::I64(2)),
        create_token(TokenCategory::ETX, TokenValue::Null),
    ];

    let mock_lexer = TokenStream::new(tokens);
    let mut parser = Parser::new(mock_lexer);

    assert_eq!(
        parser.parse_factor().err().unwrap().message,
        create_error_message(String::from("Unexpected token - 'ETX'. Expected ')'."))
    );
}

#[test]
fn parse_identifier_or_call_fail() {
    let token_series = [
        vec![
            // print(5,)
            create_token(TokenCategory::Identifier, TokenValue::String(String::from("print"))),
            create_token(TokenCategory::ParenOpen, TokenValue::Null),
            create_token(TokenCategory::I64Value, TokenValue::I64(5)),
            create_token(TokenCategory::Comma, TokenValue::Null),
            create_token(TokenCategory::ParenClose, TokenValue::Null),
            create_token(TokenCategory::ETX, TokenValue::Null),
        ],
        vec![
            create_token(
                // print(
                TokenCategory::Identifier,
                TokenValue::String(String::from("print")),
            ),
            create_token(TokenCategory::ParenOpen, TokenValue::Null),
            create_token(TokenCategory::ETX, TokenValue::Null),
        ],
    ];

    let expected = [
        String::from("Couldn't create argument while parsing arguments."),
        String::from("Unexpected token - 'ETX'. Expected ')'."),
    ];

    for idx in 0..token_series.len() {
        let mock_lexer = TokenStream::new(token_series[idx].clone());
        let mut parser = Parser::new(mock_lexer);

        assert_eq!(
            parser.parse_identifier_or_call().err().unwrap().message,
            create_error_message(expected[idx].clone())
        );
    }
}

#[test]
fn parse_identifier_or_call() {
    let token_series = vec![
        vec![
            // print
            create_token(TokenCategory::Identifier, TokenValue::String(String::from("print"))),
            create_token(TokenCategory::ETX, TokenValue::Null),
        ],
        vec![
            // print()
            create_token(TokenCategory::Identifier, TokenValue::String(String::from("print"))),
            create_token(TokenCategory::ParenOpen, TokenValue::Null),
            create_token(TokenCategory::ParenClose, TokenValue::Null),
            create_token(TokenCategory::ETX, TokenValue::Null),
        ],
        vec![
            // print(5)
            create_token(TokenCategory::Identifier, TokenValue::String(String::from("print"))),
            create_token(TokenCategory::ParenOpen, TokenValue::Null),
            create_token(TokenCategory::I64Value, TokenValue::I64(5)),
            create_token(TokenCategory::ParenClose, TokenValue::Null),
            create_token(TokenCategory::ETX, TokenValue::Null),
        ],
        vec![
            // print(5, x)
            create_token(TokenCategory::Identifier, TokenValue::String(String::from("print"))),
            create_token(TokenCategory::ParenOpen, TokenValue::Null),
            create_token(TokenCategory::Reference, TokenValue::Null),
            create_token(TokenCategory::I64Value, TokenValue::I64(5)),
            create_token(TokenCategory::Comma, TokenValue::Null),
            create_token(TokenCategory::Identifier, TokenValue::String(String::from("x"))),
            create_token(TokenCategory::ParenClose, TokenValue::Null),
            create_token(TokenCategory::ETX, TokenValue::Null),
        ],
    ];

    let expected = vec![
        Expression::Variable(String::from("print")),
        Expression::FunctionCall {
            identifier: test_node(String::from("print")),
            arguments: vec![],
        },
        Expression::FunctionCall {
            identifier: test_node(String::from("print")),
            arguments: vec![test_node(Argument {
                value: test_node(Expression::Literal(Literal::I64(5))),
                passed_by: PassedBy::Value,
            })],
        },
        Expression::FunctionCall {
            identifier: test_node(String::from("print")),
            arguments: vec![
                test_node(Argument {
                    value: test_node(Expression::Literal(Literal::I64(5))),
                    passed_by: PassedBy::Reference,
                }),
                test_node(Argument {
                    value: test_node(Expression::Variable(String::from("x"))),
                    passed_by: PassedBy::Value,
                }),
            ],
        },
    ];

    for (idx, series) in token_series.iter().enumerate() {
        let mock_lexer = TokenStream::new(series.to_vec());
        let mut parser = Parser::new(mock_lexer);

        let node = parser.parse_identifier_or_call().unwrap().unwrap();
        assert_eq!(node.value, expected[idx]);
    }
}

#[test]
fn parse_switch_statement() {
    let token_series = vec![vec![
        // switch(x) {
        //      (true) -> {}
        // }
        create_token(TokenCategory::Switch, TokenValue::Null),
        create_token(TokenCategory::ParenOpen, TokenValue::Null),
        create_token(TokenCategory::Identifier, TokenValue::String(String::from("x"))),
        create_token(TokenCategory::ParenClose, TokenValue::Null),
        create_token(TokenCategory::BraceOpen, TokenValue::Null),
        create_token(TokenCategory::ParenOpen, TokenValue::Null),
        create_token(TokenCategory::True, TokenValue::Null),
        create_token(TokenCategory::ParenClose, TokenValue::Null),
        create_token(TokenCategory::Arrow, TokenValue::Null),
        create_token(TokenCategory::BraceOpen, TokenValue::Null),
        create_token(TokenCategory::BraceClose, TokenValue::Null),
        create_token(TokenCategory::BraceClose, TokenValue::Null),
        create_token(TokenCategory::ETX, TokenValue::Null),
    ]];

    let expected_types = [Statement::Switch {
        expressions: vec![test_node(SwitchExpression {
            expression: test_node(Expression::Variable(String::from("x"))),
            alias: None,
        })],
        cases: vec![test_node(SwitchCase {
            condition: test_node(Expression::Literal(Literal::True)),
            block: test_node(Block(vec![])),
        })],
    }];

    for (idx, series) in token_series.iter().enumerate() {
        let mock_lexer = TokenStream::new(series.to_vec());
        let mut parser = Parser::new(mock_lexer);

        let node = parser.parse_switch_statement().unwrap().unwrap();
        assert_eq!(node.value, expected_types[idx]);
    }
}

#[test]
fn parse_switch_expressions_fail() {
    let token_series = vec![vec![
        // x: temp,
        create_token(TokenCategory::Identifier, TokenValue::String(String::from("x"))),
        create_token(TokenCategory::Colon, TokenValue::Null),
        create_token(TokenCategory::Identifier, TokenValue::String(String::from("temp"))),
        create_token(TokenCategory::Comma, TokenValue::Null),
        create_token(TokenCategory::ETX, TokenValue::Null),
    ]];

    for series in token_series {
        let mock_lexer = TokenStream::new(series);
        let mut parser = Parser::new(mock_lexer);

        assert_eq!(
            parser.parse_switch_expressions().err().unwrap().message,
            create_error_message(String::from("Couldn't create swicth expression while parsing switch expressions."))
        );
    }
}

#[test]
fn parse_switch_expressions() {
    let token_series = vec![
        vec![
            // x: temp, y
            create_token(TokenCategory::Identifier, TokenValue::String(String::from("x"))),
            create_token(TokenCategory::Colon, TokenValue::Null),
            create_token(TokenCategory::Identifier, TokenValue::String(String::from("temp"))),
            create_token(TokenCategory::Comma, TokenValue::Null),
            create_token(TokenCategory::Identifier, TokenValue::String(String::from("y"))),
            create_token(TokenCategory::ETX, TokenValue::Null),
        ],
        vec![
            // x
            create_token(TokenCategory::Identifier, TokenValue::String(String::from("x"))),
            create_token(TokenCategory::ETX, TokenValue::Null),
        ],
    ];

    let expected_types = [
        vec![
            test_node(SwitchExpression {
                expression: test_node(Expression::Variable(String::from("x"))),
                alias: Some(test_node(String::from("temp"))),
            }),
            test_node(SwitchExpression {
                expression: test_node(Expression::Variable(String::from("y"))),
                alias: None,
            }),
        ],
        vec![test_node(SwitchExpression {
            expression: test_node(Expression::Variable(String::from("x"))),
            alias: None,
        })],
    ];

    for (idx, series) in token_series.iter().enumerate() {
        let mock_lexer = TokenStream::new(series.to_vec());
        let mut parser = Parser::new(mock_lexer);

        let vector = parser.parse_switch_expressions().unwrap();
        assert_eq!(vector, expected_types[idx]);
    }
}

#[test]
fn parse_switch_expression() {
    let token_series = vec![
        vec![
            // x: temp
            create_token(TokenCategory::Identifier, TokenValue::String(String::from("x"))),
            create_token(TokenCategory::Colon, TokenValue::Null),
            create_token(TokenCategory::Identifier, TokenValue::String(String::from("temp"))),
            create_token(TokenCategory::ETX, TokenValue::Null),
        ],
        vec![
            // x
            create_token(TokenCategory::Identifier, TokenValue::String(String::from("x"))),
            create_token(TokenCategory::ETX, TokenValue::Null),
        ],
    ];

    let expected_types = [
        SwitchExpression {
            expression: test_node(Expression::Variable(String::from("x"))),
            alias: Some(test_node(String::from("temp"))),
        },
        SwitchExpression {
            expression: test_node(Expression::Variable(String::from("x"))),
            alias: None,
        },
    ];

    for (idx, series) in token_series.iter().enumerate() {
        let mock_lexer = TokenStream::new(series.to_vec());
        let mut parser = Parser::new(mock_lexer);

        let node = parser.parse_switch_expression().unwrap().unwrap();
        assert_eq!(node.value, expected_types[idx]);
    }
}

#[test]
fn parse_switch_case() {
    let token_series = vec![vec![
        // (true) -> {}
        create_token(TokenCategory::ParenOpen, TokenValue::Null),
        create_token(TokenCategory::True, TokenValue::Null),
        create_token(TokenCategory::ParenClose, TokenValue::Null),
        create_token(TokenCategory::Arrow, TokenValue::Null),
        create_token(TokenCategory::BraceOpen, TokenValue::Null),
        create_token(TokenCategory::BraceClose, TokenValue::Null),
        create_token(TokenCategory::ETX, TokenValue::Null),
    ]];

    let expected_types = [SwitchCase {
        condition: test_node(Expression::Literal(Literal::True)),
        block: test_node(Block(vec![])),
    }];

    for (idx, series) in token_series.iter().enumerate() {
        let mock_lexer = TokenStream::new(series.to_vec());
        let mut parser = Parser::new(mock_lexer);

        let node = parser.parse_switch_case().unwrap().unwrap();
        assert_eq!(node.value, expected_types[idx]);
    }
}

#[test]
fn parse_type() {
    let token_series = vec![
        vec![
            create_token(TokenCategory::I64, TokenValue::Null),
            create_token(TokenCategory::ETX, TokenValue::Null),
        ],
        vec![
            create_token(TokenCategory::F64, TokenValue::Null),
            create_token(TokenCategory::ETX, TokenValue::Null),
        ],
        vec![
            create_token(TokenCategory::String, TokenValue::Null),
            create_token(TokenCategory::ETX, TokenValue::Null),
        ],
        vec![
            create_token(TokenCategory::Bool, TokenValue::Null),
            create_token(TokenCategory::ETX, TokenValue::Null),
        ],
    ];

    let expected_types = [Type::I64, Type::F64, Type::Str, Type::Bool];

    for (idx, series) in token_series.iter().enumerate() {
        let mock_lexer = TokenStream::new(series.to_vec());
        let mut parser = Parser::new(mock_lexer);

        let node = parser.parse_type().unwrap().unwrap();
        assert_eq!(node.value, expected_types[idx]);
    }
}

#[test]
fn parse_type_fail() {
    let token_series = vec![
        vec![
            create_token(TokenCategory::Void, TokenValue::Null),
            create_token(TokenCategory::ETX, TokenValue::Null),
        ],
        vec![
            create_token(TokenCategory::Comma, TokenValue::Null),
            create_token(TokenCategory::ETX, TokenValue::Null),
        ],
    ];

    for series in token_series {
        let mock_lexer = TokenStream::new(series);
        let mut parser = Parser::new(mock_lexer);

        assert!(parser.parse_type().is_ok());
        assert!(parser.parse_type().unwrap().is_none());
    }
}

#[test]
fn parse_literals() {
    let tokens = vec![
        create_token(TokenCategory::True, TokenValue::Null),
        create_token(TokenCategory::False, TokenValue::Null),
        create_token(TokenCategory::StringValue, TokenValue::String(String::from("a"))),
        create_token(TokenCategory::I64Value, TokenValue::I64(5)),
        create_token(TokenCategory::F64Value, TokenValue::F64(float_literal(5, 0, 1))),
        create_token(TokenCategory::ETX, TokenValue::Null),
    ];

    let mock_lexer = TokenStream::new(tokens);
    let mut parser = Parser::new(mock_lexer);

    let mut literal = parser.parse_literal().unwrap().unwrap();
    assert_eq!(literal.value, Literal::True);

    literal = parser.parse_literal().unwrap().unwrap();
    assert_eq!(literal.value, Literal::False);

    literal = parser.parse_literal().unwrap().unwrap();
    assert_eq!(literal.value, Literal::String(String::from("a")));

    literal = parser.parse_literal().unwrap().unwrap();
    assert_eq!(literal.value, Literal::I64(5));

    literal = parser.parse_literal().unwrap().unwrap();
    assert_eq!(literal.value, Literal::F64(float_literal(5, 0, 1)));
}

#[test]
fn parse_identifier() {
    let tokens = vec![
        create_token(TokenCategory::Identifier, TokenValue::String(String::from("print"))),
        create_token(TokenCategory::ETX, TokenValue::Null),
    ];

    let mock_lexer = TokenStream::new(tokens);
    let mut parser = Parser::new(mock_lexer);

    let node = parser.parse_identifier().unwrap().unwrap();
    assert_eq!(node.value, String::from("print"));
}

#[test]
fn parse_identifier_bad_value_type() {
    let tokens = vec![
        // 5 is not string
        create_token(TokenCategory::Identifier, TokenValue::I64(5)),
        create_token(TokenCategory::ETX, TokenValue::Null),
    ];

    let mock_lexer = TokenStream::new(tokens);
    let mut parser = Parser::new(mock_lexer);

    let result = parser.parse_identifier();
    assert_eq!(
        result.err().unwrap().message,
        create_error_message(String::from("Wrong token value type - given: 'identifier', expected: 'str'."))
    );
}

#[test]
fn consume_must_be() {
    let tokens = vec![
        create_token(TokenCategory::ParenOpen, TokenValue::Null),
        create_token(TokenCategory::ETX, TokenValue::Null),
    ];

    let mock_lexer = TokenStream::new(tokens);
    let mut parser = Parser::new(mock_lexer);
    assert_eq!(parser.current_token().clone().category, TokenCategory::ParenOpen);
    let _ = parser.consume_must_be(TokenCategory::ParenOpen).unwrap();

    assert_eq!(parser.current_token().clone().category, TokenCategory::ETX);
}

#[test]
fn consume_must_be_fail() {
    let tokens = vec![
        create_token(TokenCategory::ParenOpen, TokenValue::Null),
        create_token(TokenCategory::ETX, TokenValue::Null),
    ];

    let mock_lexer = TokenStream::new(tokens);
    let mut parser = Parser::new(mock_lexer);
    assert_eq!(parser.current_token().clone().category, TokenCategory::ParenOpen);
    let result = parser.consume_must_be(TokenCategory::Semicolon);

    assert_eq!(
        result.err().unwrap().message,
        create_error_message(String::from("Unexpected token - '('. Expected ';'."))
    );
    assert_eq!(parser.current_token().clone().category, TokenCategory::ParenOpen);
}

#[test]
fn consume_if_matches() {
    let tokens = vec![
        create_token(TokenCategory::ParenOpen, TokenValue::Null),
        create_token(TokenCategory::ETX, TokenValue::Null),
    ];

    let mock_lexer = TokenStream::new(tokens);
    let mut parser = Parser::new(mock_lexer);
    assert_eq!(parser.current_token().clone().category, TokenCategory::ParenOpen);
    let _ = parser.consume_if_matches(TokenCategory::ParenOpen).unwrap();

    assert_eq!(parser.current_token().clone().category, TokenCategory::ETX);
}

#[test]
fn consume_if_matches_fail() {
    let tokens = vec![
        create_token(TokenCategory::ParenOpen, TokenValue::Null),
        create_token(TokenCategory::ETX, TokenValue::Null),
    ];

    let mock_lexer = TokenStream::new(tokens);
    let mut parser = Parser::new(mock_lexer);
    assert_eq!(parser.current_token().clone().category, TokenCategory::ParenOpen);
    let result = parser.consume_if_matches(TokenCategory::Semicolon);

    assert!(result.unwrap().is_none());
    assert_eq!(parser.current_token().clone().category, TokenCategory::ParenOpen);
}


#[test]
fn parse_unary_term_factor_without_factor() {
    let tokens = vec![
        create_token(TokenCategory::Semicolon, TokenValue::Null),
        create_token(TokenCategory::ETX, TokenValue::Null),
    ];
    let mut parser = Parser::new(TokenStream::new(tokens));
    assert_eq!(
        parser.parse_unary_term_factor().err().unwrap().message,
        create_error_message(String::from("Couldn't create factor while parsing unary term."))
    );
}

#[test]
fn parse_unary_term_factor_literal() {
    let tokens = vec![
        create_token(TokenCategory::I64Value, TokenValue::I64(4)),
        create_token(TokenCategory::ETX, TokenValue::Null),
    ];
    let mut parser = Parser::new(TokenStream::new(tokens));
    assert_eq!(parser.parse_unary_term_factor().unwrap(), test_node(Expression::Literal(Literal::I64(4))));
}

#[test]
fn parse_parameters_none() {
    let tokens = vec![
        create_token(TokenCategory::ParenClose, TokenValue::Null),
        create_token(TokenCategory::ETX, TokenValue::Null),
    ];
    let mut parser = Parser::new(TokenStream::new(tokens));
    assert_eq!(parser.parse_parameters().unwrap(), vec![]);
    assert_eq!(parser.current_token().category, TokenCategory::ParenClose);
}

#[test]
fn parse_switch_expressions_none() {
    let tokens = vec![
        create_token(TokenCategory::ParenClose, TokenValue::Null),
        create_token(TokenCategory::ETX, TokenValue::Null),
    ];
    let mut parser = Parser::new(TokenStream::new(tokens));
    assert_eq!(parser.parse_switch_expressions().unwrap(), vec![]);
    assert_eq!(parser.current_token().category, TokenCategory::ParenClose);
}

#[test]
fn parse_break_statement_at_end_of_tokens() {
    let tokens = vec![create_token(TokenCategory::Break, TokenValue::Null)];
    let mut parser = Parser::new(TokenStream::new(tokens));
    assert!(parser.parse_break_statement().unwrap().is_none());
}

#[test]
fn parse_empty_statement_block() {
    let tokens = vec![
        create_token(TokenCategory::BraceOpen, TokenValue::Null),
        create_token(TokenCategory::BraceClose, TokenValue::Null),
        create_token(TokenCategory::ETX, TokenValue::Null),
    ];
    let mut parser = Parser::new(TokenStream::new(tokens));
    let block = parser.parse_statement_block().unwrap().unwrap();
    assert_eq!(block.value.0.len(), 0);
    assert_eq!(parser.current_token().category, TokenCategory::ETX);
}

#[test]
fn parse_return_without_value() {
    let tokens = vec![
        create_token(TokenCategory::Return, TokenValue::Null),
        create_token(TokenCategory::Semicolon, TokenValue::Null),
        create_token(TokenCategory::ETX, TokenValue::Null),
    ];
    let mut parser = Parser::new(TokenStream::new(tokens));
    assert_eq!(parser.parse_return_statement().unwrap().unwrap(), test_node(Statement::Return(None)));
    assert_eq!(parser.current_token().category, TokenCategory::ETX);
}

#[test]
fn parse_empty_program() {
    let tokens = vec![
        create_token(TokenCategory::Semicolon, TokenValue::Null),
        create_token(TokenCategory::Semicolon, TokenValue::Null),
        create_token(TokenCategory::ETX, TokenValue::Null),
        create_token(TokenCategory::ETX, TokenValue::Null),
    ];
    let mut parser = Parser::new(TokenStream::new(tokens));
    let program = parser.parse().unwrap();
    assert!(program.statements.is_empty());
    assert!(program.functions.is_empty());
}

#[test]
fn parse_break_without_semicolon() {
    let tokens = vec![
        create_token(TokenCategory::Break, TokenValue::Null),
        create_token(TokenCategory::Identifier, TokenValue::String(String::from("x"))),
        create_token(TokenCategory::ETX, TokenValue::Null),
    ];
    let mut parser = Parser::new(TokenStream::new(tokens));
    assert_eq!(
        parser.parse_break_statement().err().unwrap().message,
        create_error_message(String::from("Unexpected token - 'x'. Expected ';'."))
    );
}

#[test]
fn parse_for_statement_with_condition_only() {
    let tokens = vec![
        create_token(TokenCategory::For, TokenValue::Null),
        create_token(TokenCategory::ParenOpen, TokenValue::Null),
        create_token(TokenCategory::Semicolon, TokenValue::Null),
        create_token(TokenCategory::True, TokenValue::Null),
        create_token(TokenCategory::Semicolon, TokenValue::Null),
        create_token(TokenCategory::ParenClose, TokenValue::Null),
        create_token(TokenCategory::BraceOpen, TokenValue::Null),
        create_token(TokenCategory::BraceClose, TokenValue::Null),
        create_token(TokenCategory::ETX, TokenValue::Null),
    ];
    let mut parser = Parser::new(TokenStream::new(tokens));
    let node = parser.parse_for_statement().unwrap().unwrap();
    assert_eq!(
        node.value,
        Statement::ForLoop {
            declaration: None,
            condition: test_node(Expression::Literal(Literal::True)),
            assignment: None,
            block: test_node(Block(vec![])),
        }
    );
    assert_eq!(parser.current_token().category, TokenCategory::ETX);
}

#[test]
fn parse_declaration_without_value() {
    let tokens = vec![
        create_token(TokenCategory::I64, TokenValue::Null),
        create_token(TokenCategory::Identifier, TokenValue::String(String::from("x"))),
        create_token(TokenCategory::Semicolon, TokenValue::Null),
        create_token(TokenCategory::ETX, TokenValue::Null),
    ];
    let mut parser = Parser::new(TokenStream::new(tokens));
    let node = parser.parse_variable_declaration().unwrap().unwrap();
    assert_eq!(
        node.value,
        Statement::Declaration { var_type: test_node(Type::I64), identifier: test_node(String::from("x")), value: None }
    );
    assert_eq!(parser.current_token().category, TokenCategory::ETX);
}

#[test]
fn parse_program_with_one_assignment() {
    let tokens = vec![
        create_token(TokenCategory::Semicolon, TokenValue::Null),
        create_token(TokenCategory::Semicolon, TokenValue::Null),
        create_token(TokenCategory::Identifier, TokenValue::String(String::from("x"))),
        create_token(TokenCategory::Assign, TokenValue::Null),
        create_token(TokenCategory::I64Value, TokenValue::I64(7)),
        create_token(TokenCategory::Semicolon, TokenValue::Null),
        create_token(TokenCategory::ETX, TokenValue::Null),
        create_token(TokenCategory::ETX, TokenValue::Null),
    ];
    let mut parser = Parser::new(TokenStream::new(tokens));
    let program = parser.parse().unwrap();
    assert!(program.functions.is_empty());
    assert_eq!(
        program.statements,
        vec![test_node(Statement::Assignment {
            identifier: test_node(String::from("x")),
            value: test_node(Expression::Literal(Literal::I64(7))),
        })]
    );
}

fn plain_function_tokens(name: &str) -> Vec<Token> {
    vec![
        create_token(TokenCategory::Fn, TokenValue::Null),
        create_token(TokenCategory::Identifier, TokenValue::String(String::from(name))),
        create_token(TokenCategory::ParenOpen, TokenValue::Null),
        create_token(TokenCategory::ParenClose, TokenValue::Null),
        create_token(TokenCategory::Colon, TokenValue::Null),
        create_token(TokenCategory::Void, TokenValue::Null),
        create_token(TokenCategory::BraceOpen, TokenValue::Null),
        create_token(TokenCategory::BraceClose, TokenValue::Null),
    ]
}

#[test]
fn parse_function_redeclared() {
    let mut tokens = vec![
        create_token(TokenCategory::Semicolon, TokenValue::Null),
        create_token(TokenCategory::Semicolon, TokenValue::Null),
    ];
    tokens.extend(plain_function_tokens("f"));
    tokens.extend(plain_function_tokens("f"));
    tokens.push(create_token(TokenCategory::ETX, TokenValue::Null));
    tokens.push(create_token(TokenCategory::ETX, TokenValue::Null));
    let mut parser = Parser::new(TokenStream::new(tokens));
    assert_eq!(parser.parse().err().unwrap().message, String::from("Redeclaration of function 'f'.\nAt: line: 0, column: 0."));
}

#[test]
fn parse_plain_function_declaration() {
    let mut tokens = plain_function_tokens("g");
    tokens.push(create_token(TokenCategory::ETX, TokenValue::Null));
    let mut parser = Parser::new(TokenStream::new(tokens));
    let function = parser.parse_function_declaration().unwrap().unwrap();
    assert_eq!(function.value.identifier.value, String::from("g"));
    assert!(function.value.parameters.is_empty());
    assert_eq!(function.value.return_type.value, Type::Void);
    assert!(function.value.block.value.0.is_empty());
    assert_eq!(parser.current_token().category, TokenCategory::ETX);
}

#[test]
fn parse_function_named_like_builtin() {
    let mut tokens = vec![
        create_token(TokenCategory::Semicolon, TokenValue::Null),
        create_token(TokenCategory::Semicolon, TokenValue::Null),
    ];
    tokens.extend(plain_function_tokens("print"));
    tokens.push(create_token(TokenCategory::ETX, TokenValue::Null));
    tokens.push(create_token(TokenCategory::ETX, TokenValue::Null));
    let mut parser = Parser::new(TokenStream::new(tokens));
    assert_eq!(parser.parse().err().unwrap().message, String::from("Redeclaration of function 'print'.\nAt: line: 0, column: 0."));
}

#[test]
fn parse_relation_of_sums() {
    // a + 1 >= b - 2 ;
    let tokens = vec![
        create_token(TokenCategory::Identifier, TokenValue::String(String::from("a"))),
        create_token(TokenCategory::Plus, TokenValue::Null),
        create_token(TokenCategory::I64Value, TokenValue::I64(1)),
        create_token(TokenCategory::GreaterOrEqual, TokenValue::Null),
        create_token(TokenCategory::Identifier, TokenValue::String(String::from("b"))),
        create_token(TokenCategory::Minus, TokenValue::Null),
        create_token(TokenCategory::I64Value, TokenValue::I64(2)),
        create_token(TokenCategory::Semicolon, TokenValue::Null),
        create_token(TokenCategory::ETX, TokenValue::Null),
    ];
    let mut parser = Parser::new(TokenStream::new(tokens));
    let node = parser.parse_expression().unwrap().unwrap();
    assert_eq!(
        node.value,
        Expression::GreaterEqual(
            Box::new(test_node(Expression::Addition(
                Box::new(test_node(Expression::Variable(String::from("a")))),
                Box::new(test_node(Expression::Literal(Literal::I64(1)))),
            ))),
            Box::new(test_node(Expression::Subtraction(
                Box::new(test_node(Expression::Variable(String::from("b")))),
                Box::new(test_node(Expression::Literal(Literal::I64(2)))),
            ))),
        )
    );
}
