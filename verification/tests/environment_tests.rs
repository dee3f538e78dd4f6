use tinylang::runtime::environment::Environment;
use tinylang::runtime::values::{RuntimeError, RuntimeValue};

#[test]
fn declare_then_lookup_yields_the_value() {
    let mut env = Environment::new(None);
    env.declare_variable("x".to_owned(), RuntimeValue::Number(5), false)
        .unwrap();
    assert!(matches!(env.lookup_variable("x").unwrap(), RuntimeValue::Number(5)));
}

#[test]
fn assignment_updates_the_innermost_binding_outward() {
    let mut parent = Environment::new(None);
    parent
        .declare_variable("x".to_owned(), RuntimeValue::Number(1), false)
        .unwrap();
    let mut child = Environment::new(Some(parent));
    child.assign_variable("x", RuntimeValue::Number(2)).unwrap();
    assert!(matches!(child.lookup_variable("x").unwrap(), RuntimeValue::Number(2)));
}

#[test]
fn assignment_to_an_undeclared_name_fails() {
    let mut env = Environment::new(None);
    let error = env.assign_variable("nowhere", RuntimeValue::Null).unwrap_err();
    assert!(matches!(error, RuntimeError::UndeclaredVariable(name) if name == "nowhere"));
}

#[test]
fn a_child_scope_shadows_its_parent() {
    let mut parent = Environment::new(None);
    parent
        .declare_variable("x".to_owned(), RuntimeValue::Number(1), false)
        .unwrap();
    let mut child = Environment::new(Some(parent));
    child
        .declare_variable("x".to_owned(), RuntimeValue::Number(2), false)
        .unwrap();
    assert!(matches!(child.lookup_variable("x").unwrap(), RuntimeValue::Number(2)));
}

#[test]
fn a_child_binding_is_invisible_to_a_sibling_scope() {
    let parent = Environment::new(None);
    let mut first_child = Environment::new(Some(parent));
    first_child
        .declare_variable("hidden".to_owned(), RuntimeValue::Number(7), false)
        .unwrap();
    assert!(matches!(
        first_child.lookup_variable("hidden").unwrap(),
        RuntimeValue::Number(7)
    ));
    // A sibling scope over an identical parent resolves the name as the
    // parent alone would: not at all.
    let other_parent = Environment::new(None);
    let sibling = Environment::new(Some(other_parent));
    let error = sibling.lookup_variable("hidden").unwrap_err();
    assert!(matches!(error, RuntimeError::UndeclaredVariable(name) if name == "hidden"));
}

#[test]
fn shadowing_an_outer_name_is_not_a_redeclaration() {
    let mut parent = Environment::new(None);
    parent
        .declare_variable("x".to_owned(), RuntimeValue::Number(1), false)
        .unwrap();
    let mut child = Environment::new(Some(parent));
    assert!(child
        .declare_variable("x".to_owned(), RuntimeValue::Number(2), false)
        .is_ok());
}

#[test]
fn a_constant_refuses_reassignment_in_any_scope() {
    let mut parent = Environment::new(None);
    parent
        .declare_variable("c".to_owned(), RuntimeValue::Number(1), true)
        .unwrap();
    let mut child = Environment::new(Some(parent));
    let error = child.assign_variable("c", RuntimeValue::Number(2)).unwrap_err();
    assert!(matches!(error, RuntimeError::AssignedToConstant(name) if name == "c"));
    assert!(matches!(child.lookup_variable("c").unwrap(), RuntimeValue::Number(1)));
}
