use tinyscript::environment::EnvironmentData;
use tinyscript::storage::{Storage, StorageVariable, VariableNotFoundError, PRINT_NATIVE};
use tinyscript::value::Value;

fn user(s: &str) -> StorageVariable {
    StorageVariable::User(s.to_string())
}

fn text(s: &str) -> Value {
    Value::String(s.to_string())
}

#[test]
fn unbound_name_cannot_be_read_or_stored() {
    let mut storage = Storage::new();
    assert_eq!(storage.slot_of(&"x".to_string()), None);
    assert_eq!(
        storage.store(user("x"), Value::Null),
        Err(VariableNotFoundError { key: "x".to_string() })
    );
}

#[test]
fn not_found_message() {
    let e = VariableNotFoundError { key: "abc".to_string() };
    assert_eq!(e.to_string(), "Variable not found: abc");
}

#[test]
fn slots_are_handed_out_in_order() {
    let mut storage = Storage::new();
    assert!(matches!(storage.get_free(), StorageVariable::Local(0)));
    assert!(matches!(storage.get_free(), StorageVariable::Local(1)));
    assert_eq!(storage.get(StorageVariable::Local(1)), Value::Null);
    assert_eq!(storage.store(StorageVariable::Local(0), text("v")), Ok(()));
    assert_eq!(storage.get(StorageVariable::Local(0)), text("v"));
}

#[test]
fn declared_name_reads_its_slot() {
    let mut storage = Storage::new();
    assert!(matches!(storage.new_var("x".to_string()), StorageVariable::Local(0)));
    assert_eq!(storage.get(user("x")), Value::Null);
    assert_eq!(storage.store(user("x"), Value::Bool(true)), Ok(()));
    assert_eq!(storage.get(user("x")), Value::Bool(true));
}

#[test]
fn assigning_an_unbound_name_declares_it() {
    let mut storage = Storage::new();
    storage.assign_or_declare(&"x".to_string(), text("five"));
    assert_eq!(storage.get(user("x")), text("five"));
}

#[test]
fn inner_declaration_is_gone_after_the_scope_ends() {
    let mut storage = Storage::new();
    storage.scope_start();
    storage.assign_or_declare(&"y".to_string(), Value::Bool(false));
    assert_eq!(storage.get(user("y")), Value::Bool(false));
    storage.scope_end();
    assert_eq!(storage.slot_of(&"y".to_string()), None);
}

#[test]
fn assignment_from_inner_scope_mutates_outer_binding() {
    let mut storage = Storage::new();
    storage.assign_or_declare(&"x".to_string(), text("1"));
    storage.scope_start();
    storage.assign_or_declare(&"x".to_string(), text("2"));
    storage.scope_end();
    assert_eq!(storage.get(user("x")), text("2"));
}

#[test]
fn inner_declaration_shadows_without_touching_outer() {
    let mut storage = Storage::new();
    storage.assign_or_declare(&"x".to_string(), text("outer"));
    storage.scope_start();
    storage.new_var("x".to_string());
    assert_eq!(storage.store(user("x"), text("inner")), Ok(()));
    assert_eq!(storage.get(user("x")), text("inner"));
    storage.scope_end();
    assert_eq!(storage.get(user("x")), text("outer"));
}

#[test]
fn slots_are_not_reclaimed_when_a_scope_ends() {
    let mut storage = Storage::new();
    storage.new_var("a".to_string());
    storage.scope_start();
    storage.new_var("b".to_string());
    storage.new_var("c".to_string());
    storage.scope_end();
    storage.scope_end();
    assert!(matches!(storage.get_free(), StorageVariable::Local(3)));
    assert_eq!(storage.get(StorageVariable::Local(2)), Value::Null);
}

#[test]
fn leaving_the_outermost_scope_does_nothing() {
    let mut storage = Storage::new();
    storage.assign_or_declare(&"x".to_string(), Value::Bool(true));
    storage.scope_end();
    assert_eq!(storage.get(user("x")), Value::Bool(true));
}

#[test]
fn scratch_stack_is_last_in_first_out() {
    let mut storage = Storage::default();
    storage.push(text("a"));
    storage.push(text("b"));
    assert_eq!(storage.pop(), text("b"));
    assert_eq!(storage.pop(), text("a"));
}

#[test]
fn init_std_binds_print() {
    let mut storage = Storage::new();
    storage.init_std();
    assert_eq!(storage.get(user("print")), Value::NativeFunc(PRINT_NATIVE));
}

#[test]
fn environment_chain_resolves_innermost_first() {
    let mut root = EnvironmentData::new(None);
    root.insert("a".to_string(), 0);
    root.insert("b".to_string(), 1);
    let mut inner = EnvironmentData::new(Some(0));
    inner.insert("a".to_string(), 2);
    let frames = vec![root, inner];
    let a = "a".to_string();
    let b = "b".to_string();
    let c = "c".to_string();
    assert_eq!(EnvironmentData::get(&frames, 1, &a), Some(2));
    assert_eq!(EnvironmentData::get(&frames, 1, &b), Some(1));
    assert_eq!(EnvironmentData::get(&frames, 0, &a), Some(0));
    assert_eq!(EnvironmentData::get(&frames, 1, &c), None);
    assert_eq!(EnvironmentData::env_of(&frames, 1, &b), Some(0));
    assert_eq!(EnvironmentData::env_of(&frames, 1, &a), Some(1));
    assert_eq!(EnvironmentData::top(&frames, 1), 0);
}

#[test]
fn environment_insert_replaces_a_binding() {
    let mut frame = EnvironmentData::new(None);
    frame.insert("k".to_string(), 4);
    frame.insert("k".to_string(), 9);
    let frames = vec![frame];
    assert_eq!(EnvironmentData::get(&frames, 0, &"k".to_string()), Some(9));
}

#[test]
fn top_follows_every_link_to_the_outermost_frame() {
    let root = EnvironmentData::new(None);
    let middle = EnvironmentData::new(Some(0));
    let mut inner = EnvironmentData::new(Some(1));
    inner.insert("x".to_string(), 0);
    let mut root_binding = root.clone();
    root_binding.insert("r".to_string(), 5);
    let frames = vec![root_binding, middle, inner];
    assert_eq!(EnvironmentData::top(&frames, 2), 0);
    assert_eq!(EnvironmentData::top(&frames, 0), 0);
    assert_eq!(EnvironmentData::get(&frames, 2, &"r".to_string()), Some(5));
    assert_eq!(EnvironmentData::env_of(&frames, 2, &"r".to_string()), Some(0));
    assert_eq!(EnvironmentData::get(&frames, 1, &"x".to_string()), None);
}

#[test]
fn a_bound_name_resolves_to_an_existing_slot() {
    let mut storage = Storage::new();
    storage.get_free();
    storage.assign_or_declare(&"x".to_string(), Value::Bool(true));
    assert_eq!(storage.slot_of(&"x".to_string()), Some(1));
}

