use tkom::scope_manager::{Binding, Scope, ScopeManager};
use tkom::stack::Stack;
use tkom::value::Value;

fn value_of(manager: &ScopeManager, name: &str) -> Result<Value, String> {
    match manager.get_variable(name) {
        Ok(Binding::Local(i)) => Ok(manager.read_cell(i)),
        Ok(Binding::Outer(_, _)) => Err(String::from("reference")),
        Err(e) => Err(e.message),
    }
}

#[test]
fn initializes_scope() {
    let scope = Scope::new(0);
    assert!(scope.variables.is_empty());
}

#[test]
fn scope_variables() {
    let mut scope = Scope::new(0);
    let mut cells: Vec<Value> = vec![Value::I64(5)];
    let name = "x";

    let _ = scope.declare_variable(name, Binding::Local(0));
    assert_eq!(scope.get_variable(name), Some(Binding::Local(0)));
    assert!(cells[0] == Value::I64(5));
    assert!(scope.get_variable("non-existent").is_none());

    let _ = scope.assign_variable(&mut cells, name, Value::I64(0));
    assert!(cells[0] == Value::I64(0));

    assert_eq!(
        scope.assign_variable(&mut cells, "y", Value::Bool(true)).err().unwrap().message,
        String::from("Variable 'y' not declared.")
    );
}

#[test]
fn initializes_scope_manager() {
    let manager = ScopeManager::new();
    assert_eq!(manager.len(), 1);
}

#[test]
fn manages_scopes() {
    let mut manager = ScopeManager::new();
    assert_eq!(manager.len(), 1);

    manager.push_scope();
    assert_eq!(manager.len(), 2);

    manager.pop_scope();
    assert_eq!(manager.len(), 1);
}

#[test]
fn manages_variables() {
    // i64 x = 1;
    // {x = 5; i64 y = 2;}
    // {y; i64 y = 3;}

    let mut manager = ScopeManager::new();

    let _ = manager.declare_variable("x", Value::I64(1));
    assert!(value_of(&manager, "x").unwrap() == Value::I64(1));

    manager.push_scope();
    assert!(value_of(&manager, "x").unwrap() == Value::I64(1));

    let _ = manager.assign_variable("x", Value::I64(5));
    assert!(value_of(&manager, "x").unwrap() == Value::I64(5));

    let _ = manager.declare_variable("y", Value::I64(2));
    assert!(value_of(&manager, "y").unwrap() == Value::I64(2));

    manager.pop_scope();
    assert!(value_of(&manager, "x").unwrap() == Value::I64(5));
    assert_eq!(value_of(&manager, "y").err().unwrap(), String::from("Variable 'y' not declared in this scope."));

    manager.push_scope();
    assert_eq!(value_of(&manager, "y").err().unwrap(), String::from("Variable 'y' not declared in this scope."));

    let _ = manager.declare_variable("y", Value::I64(3));
    assert!(value_of(&manager, "y").unwrap() == Value::I64(3));

    manager.pop_scope();
}

#[test]
fn bad_assign_type() {
    let mut manager = ScopeManager::new();

    let _ = manager.declare_variable("x", Value::I64(1));
    assert_eq!(
        manager.assign_variable("x", Value::Bool(true)).err().unwrap().message,
        String::from("Cannot assign 'bool' to variable 'x' which was previously declared as 'i64'.")
    );
}

#[test]
fn doesnt_allow_redclare() {
    let mut manager = ScopeManager::new();

    let _ = manager.declare_variable("x", Value::I64(1));
    assert_eq!(
        manager.declare_variable("x", Value::I64(6)).err().unwrap().message,
        String::from("Cannot redeclare variable 'x'.")
    );
}

#[test]
fn test_stack_push_pop_frame() {
    let mut stack = Stack::new();

    assert_eq!(stack.len(), 1);

    stack.push_stack_frame().unwrap();
    assert_eq!(stack.len(), 2);

    stack.pop_stack_frame();
    assert_eq!(stack.len(), 1);
}

#[test]
fn test_stack_overflow() {
    let mut stack = Stack::new();

    for _ in 0..499 {
        stack.push_stack_frame().unwrap();
    }

    assert_eq!(stack.len(), 500);
    let result = stack.push_stack_frame();
    assert!(result.is_err());
    if let Err(e) = result {
        assert_eq!(e.message, "Stack overflow.");
    }
}

#[test]
fn test_scope_push_pop() {
    let mut stack = Stack::new();

    stack.push_scope();
    assert_eq!(stack.scope_count(), 2);

    stack.pop_scope();
    assert_eq!(stack.scope_count(), 1);
}

#[test]
fn test_variable_operations() {
    let mut stack = Stack::new();

    let var_name = "x";

    stack.declare_variable(var_name, Value::I64(42)).unwrap();
    let retrieved_value = stack.get_variable(var_name).unwrap();
    assert!(retrieved_value == Value::I64(42));

    stack.assign_variable(var_name, Value::I64(43)).unwrap();
    let updated_value = stack.get_variable(var_name).unwrap();
    assert!(updated_value == Value::I64(43));
}

#[test]
fn frame_does_not_see_caller_variables() {
    let mut stack = Stack::new();
    stack.declare_variable("x", Value::I64(1)).unwrap();
    stack.push_stack_frame().unwrap();
    assert_eq!(stack.get_variable("x").err().unwrap().message, "Variable 'x' not declared in this scope.");
    stack.pop_stack_frame();
    assert!(stack.get_variable("x").unwrap() == Value::I64(1));
}

#[test]
fn reference_writes_through_to_caller() {
    let mut stack = Stack::new();
    stack.declare_variable("x", Value::I64(1)).unwrap();
    let (frame, cell) = stack.get_reference("x").unwrap();
    stack.push_stack_frame().unwrap();
    stack.declare_reference("p", frame, cell).unwrap();
    stack.assign_variable("p", Value::I64(7)).unwrap();
    assert!(stack.get_variable("p").unwrap() == Value::I64(7));
    stack.pop_stack_frame();
    assert!(stack.get_variable("x").unwrap() == Value::I64(7));
}

#[test]
fn block_forgets_its_variables() {
    let mut stack = Stack::new();
    stack.push_scope();
    stack.declare_variable("y", Value::Bool(true)).unwrap();
    stack.pop_scope();
    assert!(stack.get_variable("y").is_err());
    stack.declare_variable("y", Value::I64(3)).unwrap();
    assert!(stack.get_variable("y").unwrap() == Value::I64(3));
}
