use tkom::ast::{Argument, Block, Expression, FunctionDeclaration, Literal, Node, Parameter, PassedBy, Program, Statement, SwitchCase, SwitchExpression, Type};
use tkom::float::FloatArithmetic;
use tkom::interpreter::Interpreter;
use tkom::position::Position;
use tkom::tokens::FloatLiteral;
use tkom::value::Value;

/// Doubles computed with the machine's floating point.
struct Machine;

impl FloatArithmetic for Machine {
    fn from_literal(&self, literal: FloatLiteral) -> u64 {
        format!("{}.{:0width$}", literal.integral, literal.fraction, width = literal.fraction_digits as usize)
            .parse::<f64>()
            .unwrap()
            .to_bits()
    }
    fn from_i64(&self, value: i64) -> u64 {
        (value as f64).to_bits()
    }
    fn to_i64(&self, value: u64) -> i64 {
        f64::from_bits(value) as i64
    }
    fn to_text(&self, value: u64) -> String {
        f64::from_bits(value).to_string()
    }
    fn debug_text(&self, value: u64) -> String {
        format!("{:?}", f64::from_bits(value))
    }
    fn parse(&self, text: &str) -> Option<u64> {
        text.parse::<f64>().ok().map(|f| f.to_bits())
    }
    fn add(&self, a: u64, b: u64) -> u64 {
        (f64::from_bits(a) + f64::from_bits(b)).to_bits()
    }
    fn sub(&self, a: u64, b: u64) -> u64 {
        (f64::from_bits(a) - f64::from_bits(b)).to_bits()
    }
    fn mul(&self, a: u64, b: u64) -> u64 {
        (f64::from_bits(a) * f64::from_bits(b)).to_bits()
    }
    fn div(&self, a: u64, b: u64) -> u64 {
        (f64::from_bits(a) / f64::from_bits(b)).to_bits()
    }
}

fn default_position() -> Position {
    Position { line: 0, column: 0, offset: 0 }
}

fn setup_program() -> Program {
    Program { statements: vec![], functions: vec![] }
}

fn create_interpreter<'a>(program: &'a Program) -> Interpreter<'a, Machine> {
    Interpreter::new(program, &Machine, vec![])
}

#[test]
fn interpret_casting() {
    let ast = Node {
        value: Expression::Casting {
            value: Box::new(Node {
                value: Expression::Literal(Literal::I64(2)),
                position: default_position(),
            }),
            to_type: Node {
                value: Type::F64,
                position: default_position(),
            },
        },

        position: default_position(),
    };

    let exp = Some(Value::F64(2.0f64.to_bits()));

    let program = setup_program();
    let mut interpreter = create_interpreter(&program);

    let _ = interpreter.visit_expression(&ast);
    assert!(*interpreter.last_result() == exp);
}

#[test]
fn interpret_boolean_negation() {
    let ast = Node {
        value: Expression::BooleanNegation(Box::new(Node {
            value: Expression::Literal(Literal::False),
            position: default_position(),
        })),
        position: default_position(),
    };

    let exp = Some(Value::Bool(true));

    let program = setup_program();
    let mut interpreter = create_interpreter(&program);

    let _ = interpreter.visit_expression(&ast);
    assert!(*interpreter.last_result() == exp);
}

#[test]
fn interpret_arithmetic_negation() {
    let ast = Node {
        value: Expression::ArithmeticNegation(Box::new(Node {
            value: Expression::Literal(Literal::I64(5)),
            position: default_position(),
        })),
        position: default_position(),
    };

    let exp = Some(Value::I64(-5));

    let program = setup_program();
    let mut interpreter = create_interpreter(&program);

    let _ = interpreter.visit_expression(&ast);
    assert!(*interpreter.last_result() == exp);
}

#[test]
fn interpret_addition() {
    let ast = Node {
        value: Expression::Addition(
            Box::new(Node {
                value: Expression::Literal(Literal::I64(5)),
                position: default_position(),
            }),
            Box::new(Node {
                value: Expression::Literal(Literal::I64(2)),
                position: default_position(),
            }),
        ),
        position: default_position(),
    };

    let exp = Some(Value::I64(7));

    let program = setup_program();
    let mut interpreter = create_interpreter(&program);

    let _ = interpreter.visit_expression(&ast);
    assert!(*interpreter.last_result() == exp);
}

#[test]
fn interpret_subtraction() {
    let ast = Node {
        value: Expression::Subtraction(
            Box::new(Node {
                value: Expression::Literal(Literal::I64(5)),
                position: default_position(),
            }),
            Box::new(Node {
                value: Expression::Literal(Literal::I64(2)),
                position: default_position(),
            }),
        ),
        position: default_position(),
    };

    let exp = Some(Value::I64(3));

    let program = setup_program();
    let mut interpreter = create_interpreter(&program);

    let _ = interpreter.visit_expression(&ast);
    assert!(*interpreter.last_result() == exp);
}

#[test]
fn interpret_multiplication() {
    let ast = Node {
        value: Expression::Multiplication(
            Box::new(Node {
                value: Expression::Literal(Literal::I64(5)),
                position: default_position(),
            }),
            Box::new(Node {
                value: Expression::Literal(Literal::I64(2)),
                position: default_position(),
            }),
        ),
        position: default_position(),
    };

    let exp = Some(Value::I64(10));

    let program = setup_program();
    let mut interpreter = create_interpreter(&program);

    let _ = interpreter.visit_expression(&ast);
    assert!(*interpreter.last_result() == exp);
}

#[test]
fn interpret_division() {
    let ast = Node {
        value: Expression::Division(
            Box::new(Node {
                value: Expression::Literal(Literal::I64(5)),
                position: default_position(),
            }),
            Box::new(Node {
                value: Expression::Literal(Literal::I64(2)),
                position: default_position(),
            }),
        ),
        position: default_position(),
    };

    let exp = Some(Value::I64(2));

    let program = setup_program();
    let mut interpreter = create_interpreter(&program);

    let _ = interpreter.visit_expression(&ast);
    assert!(*interpreter.last_result() == exp);
}

#[test]
fn interpret_concatenation() {
    let ast = Node {
        value: Expression::Concatenation(
            Box::new(Node {
                value: Expression::Literal(Literal::True),
                position: default_position(),
            }),
            Box::new(Node {
                value: Expression::Literal(Literal::False),
                position: default_position(),
            }),
        ),
        position: default_position(),
    };

    let exp = Some(Value::Bool(false));

    let program = setup_program();
    let mut interpreter = create_interpreter(&program);

    let _ = interpreter.visit_expression(&ast);
    assert!(*interpreter.last_result() == exp);
}

#[test]
fn interpret_alternative() {
    let ast = Node {
        value: Expression::Alternative(
            Box::new(Node {
                value: Expression::Literal(Literal::True),
                position: default_position(),
            }),
            Box::new(Node {
                value: Expression::Literal(Literal::False),
                position: default_position(),
            }),
        ),
        position: default_position(),
    };

    let exp = Some(Value::Bool(true));

    let program = setup_program();
    let mut interpreter = create_interpreter(&program);

    let _ = interpreter.visit_expression(&ast);
    assert!(*interpreter.last_result() == exp);
}

#[test]
fn interpret_greater() {
    let ast = Node {
        value: Expression::Greater(
            Box::new(Node {
                value: Expression::Literal(Literal::I64(5)),
                position: default_position(),
            }),
            Box::new(Node {
                value: Expression::Literal(Literal::I64(5)),
                position: default_position(),
            }),
        ),
        position: default_position(),
    };

    let exp = Some(Value::Bool(false));

    let program = setup_program();
    let mut interpreter = create_interpreter(&program);

    let _ = interpreter.visit_expression(&ast);
    assert!(*interpreter.last_result() == exp);
}

#[test]
fn interpret_greater_equal() {
    let ast = Node {
        value: Expression::GreaterEqual(
            Box::new(Node {
                value: Expression::Literal(Literal::I64(5)),
                position: default_position(),
            }),
            Box::new(Node {
                value: Expression::Literal(Literal::I64(5)),
                position: default_position(),
            }),
        ),
        position: default_position(),
    };

    let exp = Some(Value::Bool(true));

    let program = setup_program();
    let mut interpreter = create_interpreter(&program);

    let _ = interpreter.visit_expression(&ast);
    assert!(*interpreter.last_result() == exp);
}

#[test]
fn interpret_less() {
    let ast = Node {
        value: Expression::Less(
            Box::new(Node {
                value: Expression::Literal(Literal::I64(5)),
                position: default_position(),
            }),
            Box::new(Node {
                value: Expression::Literal(Literal::I64(5)),
                position: default_position(),
            }),
        ),
        position: default_position(),
    };

    let exp = Some(Value::Bool(false));

    let program = setup_program();
    let mut interpreter = create_interpreter(&program);

    let _ = interpreter.visit_expression(&ast);
    assert!(*interpreter.last_result() == exp);
}
#[test]
fn interpret_less_equal() {
    let ast = Node {
        value: Expression::LessEqual(
            Box::new(Node {
                value: Expression::Literal(Literal::I64(5)),
                position: default_position(),
            }),
            Box::new(Node {
                value: Expression::Literal(Literal::I64(5)),
                position: default_position(),
            }),
        ),
        position: default_position(),
    };

    let exp = Some(Value::Bool(true));

    let program = setup_program();
    let mut interpreter = create_interpreter(&program);

    let _ = interpreter.visit_expression(&ast);
    assert!(*interpreter.last_result() == exp);
}

#[test]
fn interpret_equal() {
    let ast = Node {
        value: Expression::Equal(
            Box::new(Node {
                value: Expression::Literal(Literal::I64(5)),
                position: default_position(),
            }),
            Box::new(Node {
                value: Expression::Literal(Literal::I64(5)),
                position: default_position(),
            }),
        ),
        position: default_position(),
    };

    let exp = Some(Value::Bool(true));

    let program = setup_program();
    let mut interpreter = create_interpreter(&program);

    let _ = interpreter.visit_expression(&ast);
    assert!(*interpreter.last_result() == exp);
}

#[test]
fn interpret_not_equal() {
    let ast = Node {
        value: Expression::NotEqual(
            Box::new(Node {
                value: Expression::Literal(Literal::I64(5)),
                position: default_position(),
            }),
            Box::new(Node {
                value: Expression::Literal(Literal::I64(5)),
                position: default_position(),
            }),
        ),
        position: default_position(),
    };

    let exp = Some(Value::Bool(false));

    let program = setup_program();
    let mut interpreter = create_interpreter(&program);

    let _ = interpreter.visit_expression(&ast);
    assert!(*interpreter.last_result() == exp);
}

#[test]
fn interpret_literal() {
    let ast = Node {
        value: Expression::Literal(Literal::I64(5)),
        position: default_position(),
    };

    let exp = Some(Value::I64(5));

    let program = setup_program();
    let mut interpreter = create_interpreter(&program);

    let _ = interpreter.visit_expression(&ast);
    assert!(*interpreter.last_result() == exp);
}

#[test]
fn interpret_variable() {
    let ast = Node {
        value: Expression::Variable(String::from("x")),
        position: default_position(),
    };

    let exp = Some(Value::I64(5));

    let program = setup_program();
    let mut interpreter = create_interpreter(&program);
    let _ = interpreter.declare_variable("x", Value::I64(5));

    let _ = interpreter.visit_expression(&ast);
    assert!(*interpreter.last_result() == exp);
}

#[test]
fn declare_variable() {
    // i64 x = 5;
    let ast = Node {
        value: Statement::Declaration {
            var_type: Node {
                value: Type::I64,
                position: default_position(),
            },
            identifier: Node {
                value: String::from("x"),
                position: default_position(),
            },
            value: Some(Node {
                value: Expression::Literal(Literal::I64(5)),
                position: default_position(),
            }),
        },
        position: default_position(),
    };

    let program = setup_program();
    let mut interpreter = create_interpreter(&program);

    let _ = interpreter.visit_statement(&ast);
    assert!(interpreter.stack().get_variable("x").unwrap() == Value::I64(5));
}

#[test]
fn declare_variable_with_default_value() {
    // i64 x;
    let ast = Node {
        value: Statement::Declaration {
            var_type: Node {
                value: Type::I64,
                position: default_position(),
            },
            identifier: Node {
                value: String::from("x"),
                position: default_position(),
            },
            value: None,
        },
        position: default_position(),
    };

    let program = setup_program();
    let mut interpreter = create_interpreter(&program);

    let _ = interpreter.visit_statement(&ast);
    assert!(interpreter.stack().get_variable("x").unwrap() == Value::I64(0));
}

#[test]
fn declare_variable_bad_type() {
    // i64 x = false;
    let ast = Node {
        value: Statement::Declaration {
            var_type: Node {
                value: Type::I64,
                position: default_position(),
            },
            identifier: Node {
                value: String::from("x"),
                position: default_position(),
            },
            value: Some(Node {
                value: Expression::Literal(Literal::False),
                position: default_position(),
            }),
        },
        position: default_position(),
    };

    let program = setup_program();
    let mut interpreter = create_interpreter(&program);

    assert!(interpreter.visit_statement(&ast).is_err());
}

#[test]
fn redeclare_variable_fails() {
    let ast = Node {
        value: Statement::Declaration {
            var_type: Node {
                value: Type::I64,
                position: default_position(),
            },
            identifier: Node {
                value: String::from("x"),
                position: default_position(),
            },
            value: None,
        },
        position: default_position(),
    };

    let program = setup_program();
    let mut interpreter = create_interpreter(&program);

    let _ = interpreter.visit_statement(&ast);
    assert!(interpreter.stack().get_variable("x").unwrap() == Value::I64(0));

    assert!(interpreter.visit_statement(&ast).is_err());
}

#[test]
fn declare_with_none_value_fails() {
    // i64 x = print("hello world");
    let ast = Node {
        value: Statement::Declaration {
            var_type: Node {
                value: Type::I64,
                position: default_position(),
            },
            identifier: Node {
                value: String::from("x"),
                position: default_position(),
            },
            value: Some(Node {
                value: Expression::FunctionCall {
                    identifier: Node {
                        value: String::from("print"),
                        position: default_position(),
                    },
                    arguments: vec![Node {
                        value: Argument {
                            value: Node {
                                value: Expression::Literal(Literal::String(String::from("hello world"))),
                                position: default_position(),
                            },
                            passed_by: PassedBy::Value,
                        },
                        position: default_position(),
                    }],
                },
                position: default_position(),
            }),
        },
        position: default_position(),
    };

    let program = setup_program();
    let mut interpreter = create_interpreter(&program);
    assert!(interpreter.visit_statement(&ast).is_err());
}

#[test]
fn assigns_to_variable() {
    // i64 x = 0;
    // x = 5;
    let ast = Node {
        value: Statement::Assignment {
            identifier: Node {
                value: String::from("x"),
                position: default_position(),
            },
            value: Node {
                value: Expression::Literal(Literal::I64(1)),
                position: default_position(),
            },
        },
        position: default_position(),
    };

    let program = setup_program();
    let mut interpreter = create_interpreter(&program);
    let _ = interpreter.declare_variable("x", Value::I64(0));

    assert!(interpreter.visit_statement(&ast).is_ok());
    assert!(interpreter.stack().get_variable("x").unwrap() == Value::I64(1));
}

#[test]
fn assigns_bad_type_fails() {
    // i64 x = 0;
    // x = false;
    let ast = Node {
        value: Statement::Assignment {
            identifier: Node {
                value: String::from("x"),
                position: default_position(),
            },
            value: Node {
                value: Expression::Literal(Literal::False),
                position: default_position(),
            },
        },
        position: default_position(),
    };

    let program = setup_program();
    let mut interpreter = create_interpreter(&program);
    let _ = interpreter.declare_variable("x", Value::I64(0));

    assert!(interpreter.visit_statement(&ast).is_err());
}

#[test]
fn assign_with_none_value_fails() {
    // x = print("hello world");
    let ast = Node {
        value: Statement::Assignment {
            identifier: Node {
                value: String::from("x"),
                position: default_position(),
            },
            value: Node {
                value: Expression::FunctionCall {
                    identifier: Node {
                        value: String::from("print"),
                        position: default_position(),
                    },
                    arguments: vec![Node {
                        value: Argument {
                            value: Node {
                                value: Expression::Literal(Literal::String(String::from("hello world"))),
                                position: default_position(),
                            },
                            passed_by: PassedBy::Value,
                        },
                        position: default_position(),
                    }],
                },
                position: default_position(),
            },
        },
        position: default_position(),
    };

    let program = setup_program();
    let mut interpreter = create_interpreter(&program);
    let _ = interpreter.declare_variable("x", Value::I64(0));

    assert!(interpreter.visit_statement(&ast).is_err());
}

#[test]
fn if_true_branch() {
    // i64 x = 0;
    // if (true) {x = 1;} else {x = 2;}
    let ast = Node {
        value: Statement::Conditional {
            condition: Node {
                value: Expression::Literal(Literal::True),
                position: default_position(),
            },
            if_block: Node {
                value: Block(vec![Node {
                    value: Statement::Assignment {
                        identifier: Node {
                            value: String::from("x"),
                            position: default_position(),
                        },
                        value: Node {
                            value: Expression::Literal(Literal::I64(1)),
                            position: default_position(),
                        },
                    },
                    position: default_position(),
                }]),
                position: default_position(),
            },
            else_block: Some(Node {
                value: Block(vec![Node {
                    value: Statement::Assignment {
                        identifier: Node {
                            value: String::from("x"),
                            position: default_position(),
                        },
                        value: Node {
                            value: Expression::Literal(Literal::I64(2)),
                            position: default_position(),
                        },
                    },
                    position: default_position(),
                }]),
                position: default_position(),
            }),
        },
        position: default_position(),
    };

    let program = setup_program();
    let mut interpreter = create_interpreter(&program);
    let _ = interpreter.declare_variable("x", Value::I64(0));

    assert!(interpreter.visit_statement(&ast).is_ok());
    assert!(interpreter.stack().get_variable("x").unwrap() == Value::I64(1));
}

#[test]
fn if_false_branch() {
    // i64 x = 0;
    // if (true) {x = 1;} else {x = 2;}
    let ast = Node {
        value: Statement::Conditional {
            condition: Node {
                value: Expression::Literal(Literal::False),
                position: default_position(),
            },
            if_block: Node {
                value: Block(vec![Node {
                    value: Statement::Assignment {
                        identifier: Node {
                            value: String::from("x"),
                            position: default_position(),
                        },
                        value: Node {
                            value: Expression::Literal(Literal::I64(1)),
                            position: default_position(),
                        },
                    },
                    position: default_position(),
                }]),
                position: default_position(),
            },
            else_block: Some(Node {
                value: Block(vec![Node {
                    value: Statement::Assignment {
                        identifier: Node {
                            value: String::from("x"),
                            position: default_position(),
                        },
                        value: Node {
                            value: Expression::Literal(Literal::I64(2)),
                            position: default_position(),
                        },
                    },
                    position: default_position(),
                }]),
                position: default_position(),
            }),
        },
        position: default_position(),
    };

    let program = setup_program();
    let mut interpreter = create_interpreter(&program);
    let _ = interpreter.declare_variable("x", Value::I64(0));

    assert!(interpreter.visit_statement(&ast).is_ok());
    assert!(interpreter.stack().get_variable("x").unwrap() == Value::I64(2));
}

#[test]
fn if_bad_condition_type_fails() {
    // i64 x = 0;
    // if (2137) {}
    let ast = Node {
        value: Statement::Conditional {
            condition: Node {
                value: Expression::Literal(Literal::I64(2137)),
                position: default_position(),
            },
            if_block: Node {
                value: Block(vec![]),
                position: default_position(),
            },
            else_block: None,
        },
        position: default_position(),
    };

    let program = setup_program();
    let mut interpreter = create_interpreter(&program);
    let _ = interpreter.declare_variable("x", Value::I64(0));

    assert!(interpreter.visit_statement(&ast).is_err());
}

#[test]
fn for_loop() {
    // i64 total = 0;
    // for (i64 i = 1; i <= 5; i = i + 1) {total = total + i;}
    let ast = Node {
        value: Statement::ForLoop {
            declaration: Some(Box::new(Node {
                value: Statement::Declaration {
                    var_type: Node {
                        value: Type::I64,
                        position: default_position(),
                    },
                    identifier: Node {
                        value: String::from("i"),
                        position: default_position(),
                    },
                    value: Some(Node {
                        value: Expression::Literal(Literal::I64(1)),
                        position: default_position(),
                    }),
                },
                position: default_position(),
            })),
            condition: Node {
                value: Expression::LessEqual(
                    Box::new(Node {
                        value: Expression::Variable(String::from("i")),
                        position: default_position(),
                    }),
                    Box::new(Node {
                        value: Expression::Literal(Literal::I64(5)),
                        position: default_position(),
                    }),
                ),
                position: default_position(),
            },
            assignment: Some(Box::new(Node {
                value: Statement::Assignment {
                    identifier: Node {
                        value: String::from("i"),
                        position: default_position(),
                    },
                    value: Node {
                        value: Expression::Addition(
                            Box::new(Node {
                                value: Expression::Variable(String::from("i")),
                                position: default_position(),
                            }),
                            Box::new(Node {
                                value: Expression::Literal(Literal::I64(1)),
                                position: default_position(),
                            }),
                        ),
                        position: default_position(),
                    },
                },
                position: default_position(),
            })),
            block: Node {
                value: Block(vec![Node {
                    value: Statement::Assignment {
                        identifier: Node {
                            value: String::from("total"),
                            position: default_position(),
                        },
                        value: Node {
                            value: Expression::Addition(
                                Box::new(Node {
                                    value: Expression::Variable(String::from("total")),
                                    position: default_position(),
                                }),
                                Box::new(Node {
                                    value: Expression::Variable(String::from("i")),
                                    position: default_position(),
                                }),
                            ),
                            position: default_position(),
                        },
                    },
                    position: default_position(),
                }]),
                position: default_position(),
            },
        },
        position: default_position(),
    };

    let program = setup_program();
    let mut interpreter = create_interpreter(&program);
    let _ = interpreter.declare_variable("total", Value::I64(0));

    assert!(interpreter.visit_statement(&ast).is_ok());
    assert!(interpreter.stack().get_variable("total").unwrap() == Value::I64(15));
}

#[test]
fn for_loop_second_variant() {
    // i64 total = 0;
    // i64 i = 1;
    // for (;i <= 5;) {total = total + i; i = i + 1}
    let ast = Node {
        value: Statement::ForLoop {
            declaration: None,
            condition: Node {
                value: Expression::LessEqual(
                    Box::new(Node {
                        value: Expression::Variable(String::from("i")),
                        position: default_position(),
                    }),
                    Box::new(Node {
                        value: Expression::Literal(Literal::I64(5)),
                        position: default_position(),
                    }),
                ),
                position: default_position(),
            },
            assignment: None,
            block: Node {
                value: Block(vec![
                    Node {
                        value: Statement::Assignment {
                            identifier: Node {
                                value: String::from("total"),
                                position: default_position(),
                            },
                            value: Node {
                                value: Expression::Addition(
                                    Box::new(Node {
                                        value: Expression::Variable(String::from("total")),
                                        position: default_position(),
                                    }),
                                    Box::new(Node {
                                        value: Expression::Variable(String::from("i")),
                                        position: default_position(),
                                    }),
                                ),
                                position: default_position(),
                            },
                        },
                        position: default_position(),
                    },
                    Node {
                        value: Statement::Assignment {
                            identifier: Node {
                                value: String::from("i"),
                                position: default_position(),
                            },
                            value: Node {
                                value: Expression::Addition(
                                    Box::new(Node {
                                        value: Expression::Variable(String::from("i")),
                                        position: default_position(),
                                    }),
                                    Box::new(Node {
                                        value: Expression::Literal(Literal::I64(1)),
                                        position: default_position(),
                                    }),
                                ),
                                position: default_position(),
                            },
                        },
                        position: default_position(),
                    },
                ]),
                position: default_position(),
            },
        },
        position: default_position(),
    };

    let program = setup_program();
    let mut interpreter = create_interpreter(&program);
    let _ = interpreter.declare_variable("total", Value::I64(0));
    let _ = interpreter.declare_variable("i", Value::I64(1));

    assert!(interpreter.visit_statement(&ast).is_ok());
    assert!(interpreter.stack().get_variable("total").unwrap() == Value::I64(15));
}

#[test]
fn for_loop_bad_condition_type() {
    // for (;1;) {}
    let ast = Node {
        value: Statement::ForLoop {
            declaration: None,
            condition: Node {
                value: Expression::Literal(Literal::I64(1)),
                position: default_position(),
            },
            assignment: None,
            block: Node {
                value: Block(vec![]),
                position: default_position(),
            },
        },
        position: default_position(),
    };

    let program = setup_program();
    let mut interpreter = create_interpreter(&program);

    assert!(interpreter.visit_statement(&ast).is_err());
}

#[test]
fn for_loop_with_break() {
    // i64 i = 0;
    // for (;true; i = i + 1) {if (i == 5) {break;}}
    let ast = Node {
        value: Statement::ForLoop {
            declaration: None,
            condition: Node {
                value: Expression::Literal(Literal::True),
                position: default_position(),
            },
            assignment: Some(Box::new(Node {
                value: Statement::Assignment {
                    identifier: Node {
                        value: String::from("i"),
                        position: default_position(),
                    },
                    value: Node {
                        value: Expression::Addition(
                            Box::new(Node {
                                value: Expression::Variable(String::from("i")),
                                position: default_position(),
                            }),
                            Box::new(Node {
                                value: Expression::Literal(Literal::I64(1)),
                                position: default_position(),
                            }),
                        ),
                        position: default_position(),
                    },
                },
                position: default_position(),
            })),
            block: Node {
                value: Block(vec![Node {
                    value: Statement::Conditional {
                        condition: Node {
                            value: Expression::Equal(
                                Box::new(Node {
                                    value: Expression::Variable(String::from("i")),
                                    position: default_position(),
                                }),
                                Box::new(Node {
                                    value: Expression::Literal(Literal::I64(5)),
                                    position: default_position(),
                                }),
                            ),
                            position: default_position(),
                        },
                        if_block: Node {
                            value: Block(vec![Node {
                                value: Statement::Break,
                                position: default_position(),
                            }]),
                            position: default_position(),
                        },
                        else_block: None,
                    },
                    position: default_position(),
                }]),
                position: default_position(),
            },
        },
        position: default_position(),
    };

    let program = setup_program();
    let mut interpreter = create_interpreter(&program);
    let _ = interpreter.declare_variable("i", Value::I64(0));

    assert!(interpreter.visit_statement(&ast).is_ok());
    assert!(interpreter.is_breaking() == false);
    assert!(interpreter.stack().get_variable("i").unwrap() == Value::I64(5));
}

#[test]
fn test_function_call() {
    let ast = Node {
        value: Statement::FunctionCall {
            identifier: Node {
                value: String::from("add"),
                position: default_position(),
            },
            arguments: vec![
                Node {
                    value: Argument {
                        value: Node {
                            value: Expression::Literal(Literal::I64(3)),
                            position: default_position(),
                        },
                        passed_by: PassedBy::Value,
                    },
                    position: default_position(),
                },
                Node {
                    value: Argument {
                        value: Node {
                            value: Expression::Literal(Literal::I64(4)),
                            position: default_position(),
                        },
                        passed_by: PassedBy::Value,
                    },
                    position: default_position(),
                },
            ],
        },
        position: default_position(),
    };

    let functions = vec![
        Node {
            value: FunctionDeclaration {
                identifier: Node {
                    value: String::from("add"),
                    position: default_position(),
                },
                parameters: vec![
                    Node {
                        value: Parameter {
                            passed_by: PassedBy::Value,
                            parameter_type: Node {
                                value: Type::I64,
                                position: default_position(),
                            },
                            identifier: Node {
                                value: String::from("a"),
                                position: default_position(),
                            },
                        },
                        position: default_position(),
                    },
                    Node {
                        value: Parameter {
                            passed_by: PassedBy::Value,
                            parameter_type: Node {
                                value: Type::I64,
                                position: default_position(),
                            },
                            identifier: Node {
                                value: String::from("b"),
                                position: default_position(),
                            },
                        },
                        position: default_position(),
                    },
                ],
                return_type: Node {
                    value: Type::I64,
                    position: default_position(),
                },
                block: Node {
                    value: Block(vec![Node {
                        value: Statement::Return(Some(Node {
                            value: Expression::Addition(
                                Box::new(Node {
                                    value: Expression::Variable(String::from("a")),
                                    position: default_position(),
                                }),
                                Box::new(Node {
                                    value: Expression::Variable(String::from("b")),
                                    position: default_position(),
                                }),
                            ),
                            position: default_position(),
                        })),
                        position: default_position(),
                    }]),
                    position: default_position(),
                },
            },
            position: default_position(),
        },
    ];

    let program = Program { statements: vec![], functions };
    let mut interpreter = Interpreter::new(&program, &Machine, vec![]);
    assert!(interpreter.visit_statement(&ast).is_ok());
    assert!(*interpreter.last_result() == Some(Value::I64(7)));
    assert!(interpreter.is_returning() == false);
}

fn create_assignment(val: i64) -> Node<Statement> {
    Node {
        value: Statement::Assignment {
            identifier: Node {
                value: String::from("result"),
                position: default_position(),
            },
            value: Node {
                value: Expression::Literal(Literal::I64(val)),
                position: default_position(),
            },
        },
        position: default_position(),
    }
}

fn create_condition(val: i64) -> Node<Expression> {
    Node {
        value: Expression::Less(
            Box::new(Node {
                value: Expression::Variable(String::from("x")),
                position: default_position(),
            }),
            Box::new(Node {
                value: Expression::Literal(Literal::I64(val)),
                position: default_position(),
            }),
        ),
        position: default_position(),
    }
}


fn create_test_switch_case() -> Node<Statement> {
    // switch (x) {
    //      (x < 15) {
    //          result = 15;
    //      } (x < 10) {
    //          result = 10;
    //          break;
    //      } (x < 5) {
    //          result = 5;
    //      }
    // }

    Node {
        value: Statement::Switch {
            expressions: vec![Node {
                value: SwitchExpression {
                    expression: Node {
                        value: Expression::Variable(String::from("x")),
                        position: default_position(),
                    },
                    alias: None,
                },
                position: default_position(),
            }],
            cases: vec![
                Node {
                    value: SwitchCase {
                        condition: create_condition(15),
                        block: Node {
                            value: Block(vec![create_assignment(15)]),
                            position: default_position(),
                        },
                    },
                    position: default_position(),
                },
                Node {
                    value: SwitchCase {
                        condition: create_condition(10),
                        block: Node {
                            value: Block(vec![
                                create_assignment(10),
                                Node {
                                    value: Statement::Break,
                                    position: default_position(),
                                },
                            ]),
                            position: default_position(),
                        },
                    },
                    position: default_position(),
                },
                Node {
                    value: SwitchCase {
                        condition: create_condition(5),
                        block: Node {
                            value: Block(vec![create_assignment(5)]),
                            position: default_position(),
                        },
                    },
                    position: default_position(),
                },
            ],
        },
        position: default_position(),
    }
}

#[test]
fn switch_enters() {
    let program = setup_program();
    let mut interpreter = create_interpreter(&program);
    let _ = interpreter.declare_variable("x", Value::I64(12));
    let _ = interpreter.declare_variable("result", Value::default_value(Type::I64).unwrap());

    let switch_case = &create_test_switch_case();
    let _ = interpreter.visit_statement(switch_case);

    assert!(interpreter.stack().get_variable("result").unwrap() == Value::I64(15));
    assert!(interpreter.is_breaking() == false);
}

#[test]
fn switch_breaks() {
    let program = setup_program();
    let mut interpreter = create_interpreter(&program);
    let _ = interpreter.declare_variable("x", Value::I64(3));
    let _ = interpreter.declare_variable("result", Value::default_value(Type::I64).unwrap());

    let switch_case = &create_test_switch_case();
    let _ = interpreter.visit_statement(switch_case);

    assert!(interpreter.stack().get_variable("result").unwrap() == Value::I64(10));
    assert!(interpreter.is_breaking() == false);
}

#[test]
fn switch_no_entry() {
    let program = setup_program();
    let mut interpreter = create_interpreter(&program);
    let _ = interpreter.declare_variable("x", Value::I64(2137));
    let _ = interpreter.declare_variable("result", Value::default_value(Type::I64).unwrap());

    let switch_case = &create_test_switch_case();
    let _ = interpreter.visit_statement(switch_case);

    assert!(interpreter.stack().get_variable("result").unwrap() == Value::I64(0));
    assert!(interpreter.is_breaking() == false);
}


#[test]
fn declare_variable_twice_fails() {
    let program = setup_program();
    let mut interpreter = create_interpreter(&program);
    assert!(interpreter.declare_variable("x", Value::I64(1)).is_ok());
    let error = interpreter.declare_variable("x", Value::I64(2)).err().unwrap();
    assert_eq!(error.message, String::from("Cannot redeclare variable 'x'."));
}

#[test]
fn interpret_empty_program() {
    let program = setup_program();
    let mut interpreter = create_interpreter(&program);
    assert!(interpreter.interpret().is_ok());
    assert!(interpreter.output().is_empty());
}

#[test]
fn empty_block_runs() {
    let program = setup_program();
    let mut interpreter = create_interpreter(&program);
    assert!(interpreter.visit_block(&vec![]).is_ok());
    assert!(interpreter.last_result().is_none());
}

#[test]
fn call_of_unknown_function_does_nothing() {
    let program = setup_program();
    let mut interpreter = create_interpreter(&program);
    let name = Node { value: String::from("nothing"), position: default_position() };
    assert!(interpreter.call_function(&name, &vec![]).is_ok());
    assert!(interpreter.output().is_empty());
}

fn node<T>(value: T) -> Node<T> {
    Node { value, position: default_position() }
}

fn function_with_empty_body(name: &str, parameter: Option<Type>, return_type: Type) -> Node<FunctionDeclaration> {
    let parameters = match parameter {
        Some(t) => vec![node(Parameter { passed_by: PassedBy::Value, parameter_type: node(t), identifier: node(String::from("a")) })],
        None => vec![],
    };
    node(FunctionDeclaration {
        identifier: node(String::from(name)),
        parameters,
        return_type: node(return_type),
        block: node(Block(vec![])),
    })
}

fn literal_argument(literal: Literal) -> Node<Argument> {
    node(Argument { value: node(Expression::Literal(literal)), passed_by: PassedBy::Value })
}

#[test]
fn argument_of_wrong_type_fails() {
    let program = Program { statements: vec![], functions: vec![function_with_empty_body("f", Some(Type::I64), Type::Void)] };
    let mut interpreter = create_interpreter(&program);
    let result = interpreter.call_function(&node(String::from("f")), &vec![literal_argument(Literal::True)]);
    match result {
        Err(tkom::interpreter::Halt::Failed(e)) => {
            assert_eq!(e.message, String::from("Function 'f' expected 'i64', but got 'bool'.\nAt line: 0, column: 0."))
        },
        _ => panic!("expected a failure"),
    }
}

#[test]
fn missing_return_value_fails() {
    let program = Program { statements: vec![], functions: vec![function_with_empty_body("g", None, Type::I64)] };
    let mut interpreter = create_interpreter(&program);
    let result = interpreter.call_function(&node(String::from("g")), &vec![]);
    match result {
        Err(tkom::interpreter::Halt::Failed(e)) => {
            assert_eq!(e.message, String::from("Bad return type from function 'g'. Expected 'i64', but got 'None'.\nAt line: 0, column: 0."))
        },
        _ => panic!("expected a failure"),
    }
}

#[test]
fn void_function_with_empty_body_runs() {
    let program = Program { statements: vec![], functions: vec![function_with_empty_body("h", Some(Type::I64), Type::Void)] };
    let mut interpreter = create_interpreter(&program);
    assert!(interpreter.call_function(&node(String::from("h")), &vec![literal_argument(Literal::I64(1))]).is_ok());
    assert!(interpreter.last_result().is_none());
}

#[test]
fn break_at_top_level_fails() {
    let program = Program { statements: vec![node(Statement::Break)], functions: vec![] };
    let mut interpreter = create_interpreter(&program);
    match interpreter.interpret() {
        Err(tkom::interpreter::Halt::Failed(e)) => {
            assert_eq!(e.message, String::from("Break called outside 'for' or 'switch'.\nAt line: 0, column: 0."))
        },
        _ => panic!("expected a failure"),
    }
}

#[test]
fn return_at_top_level_fails() {
    let program = Program { statements: vec![node(Statement::Return(None))], functions: vec![] };
    let mut interpreter = create_interpreter(&program);
    match interpreter.interpret() {
        Err(tkom::interpreter::Halt::Failed(e)) => {
            assert_eq!(e.message, String::from("Return called outside a function.\nAt line: 0, column: 0."))
        },
        _ => panic!("expected a failure"),
    }
}

#[test]
fn uninitialised_declaration_gets_default() {
    let program = setup_program();
    let mut interpreter = create_interpreter(&program);
    let statement = node(Statement::Declaration { var_type: node(Type::Str), identifier: node(String::from("s")), value: None });
    assert!(interpreter.visit_statement(&statement).is_ok());
    let again = interpreter.visit_statement(&statement);
    match again {
        Err(tkom::interpreter::Halt::Failed(e)) => {
            assert_eq!(e.message, String::from("Cannot redeclare variable 's'.\nAt line: 0, column: 0."))
        },
        _ => panic!("expected a failure"),
    }
}

#[test]
fn assignment_of_wrong_type_fails() {
    let program = setup_program();
    let mut interpreter = create_interpreter(&program);
    assert!(interpreter.declare_variable("x", Value::I64(1)).is_ok());
    let statement = node(Statement::Assignment { identifier: node(String::from("x")), value: node(Expression::Literal(Literal::True)) });
    match interpreter.visit_statement(&statement) {
        Err(tkom::interpreter::Halt::Failed(e)) => assert_eq!(
            e.message,
            String::from("Cannot assign 'bool' to variable 'x' which was previously declared as 'i64'.\nAt line: 0, column: 0.")
        ),
        _ => panic!("expected a failure"),
    }
}

#[test]
fn break_after_other_statements_fails_and_stops() {
    let program = Program {
        statements: vec![
            node(Statement::Declaration {
                var_type: node(Type::I64),
                identifier: node(String::from("x")),
                value: Some(node(Expression::Literal(Literal::I64(1)))),
            }),
            node(Statement::Break),
            node(Statement::Assignment {
                identifier: node(String::from("x")),
                value: node(Expression::Literal(Literal::I64(2))),
            }),
        ],
        functions: vec![],
    };
    let mut interpreter = create_interpreter(&program);
    match interpreter.interpret() {
        Err(tkom::interpreter::Halt::Failed(e)) => {
            assert_eq!(e.message, String::from("Break called outside 'for' or 'switch'.\nAt line: 0, column: 0."))
        },
        _ => panic!("expected a failure"),
    }
    assert_eq!(interpreter.stack().get_variable("x").unwrap(), Value::I64(1));
}
