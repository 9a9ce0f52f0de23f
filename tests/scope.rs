use tensor_scope::{Decision, Generation, Scope, ScopeError};

fn gen(position: usize, pending_uses: usize) -> Generation {
    Generation { position, pending_uses }
}

#[test]
fn single_consumer_moves() {
    let mut scope = Scope::new();
    scope.tensor_register_variable("x", 0).unwrap();
    scope.tensor_register_future_use("x", 3).unwrap();
    assert_eq!(scope.tensor_use_owned("x", 3), Ok(Decision::Move("x".to_string())));
}

#[test]
fn several_consumers_duplicate_then_move() {
    let mut scope = Scope::new();
    scope.tensor_register_variable("x", 0).unwrap();
    for p in 1..=3 {
        scope.tensor_register_future_use("x", p).unwrap();
    }
    assert_eq!(scope.generations("x"), vec![gen(0, 3)]);
    assert_eq!(scope.tensor_use_owned("x", 1), Ok(Decision::Duplicate("x".to_string())));
    assert_eq!(scope.tensor_use_owned("x", 2), Ok(Decision::Duplicate("x".to_string())));
    assert_eq!(scope.tensor_use_owned("x", 3), Ok(Decision::Move("x".to_string())));
    assert_eq!(scope.generations("x"), vec![gen(0, 0)]);
}

#[test]
fn many_consumers_last_one_moves() {
    let mut scope = Scope::new();
    scope.tensor_register_variable("a", 2).unwrap();
    for p in 3..13 {
        scope.tensor_register_future_use("a", p).unwrap();
    }
    for p in 3..12 {
        assert_eq!(scope.tensor_use_owned("a", p), Ok(Decision::Duplicate("a".to_string())));
    }
    assert_eq!(scope.tensor_use_owned("a", 12), Ok(Decision::Move("a".to_string())));
}

#[test]
fn shadowing_resolves_latest_generation() {
    let mut scope = Scope::new();
    scope.tensor_register_variable("x", 0).unwrap();
    scope.tensor_register_variable("x", 5).unwrap();
    scope.tensor_register_future_use("x", 7).unwrap();
    assert_eq!(scope.generations("x"), vec![gen(0, 0), gen(5, 1)]);
    assert_eq!(scope.tensor_use_owned("x", 7), Ok(Decision::Move("x".to_string())));
    assert_eq!(scope.generations("x"), vec![gen(0, 0), gen(5, 0)]);
}

#[test]
fn use_before_redefinition_sees_earlier_generation() {
    let mut scope = Scope::new();
    scope.tensor_register_variable("x", 0).unwrap();
    scope.tensor_register_variable("x", 5).unwrap();
    scope.tensor_register_future_use("x", 2).unwrap();
    scope.tensor_register_future_use("x", 4).unwrap();
    scope.tensor_register_future_use("x", 6).unwrap();
    assert_eq!(scope.generations("x"), vec![gen(0, 2), gen(5, 1)]);
    assert_eq!(scope.tensor_use_owned("x", 2), Ok(Decision::Duplicate("x".to_string())));
    assert_eq!(scope.tensor_use_owned("x", 4), Ok(Decision::Move("x".to_string())));
    assert_eq!(scope.tensor_use_owned("x", 6), Ok(Decision::Move("x".to_string())));
}

#[test]
fn unknown_variable_on_future_use() {
    let mut scope = Scope::new();
    scope.tensor_register_variable("x", 0).unwrap();
    assert_eq!(
        scope.tensor_register_future_use("y", 2),
        Err(ScopeError::UnknownVariable("y".to_string()))
    );
    assert_eq!(scope.generations("y"), vec![]);
}

#[test]
fn unknown_variable_on_use() {
    let mut scope = Scope::default();
    assert_eq!(
        scope.tensor_use_owned("y", 2),
        Err(ScopeError::UnknownVariable("y".to_string()))
    );
}

#[test]
fn use_before_first_generation() {
    let mut scope = Scope::new();
    scope.tensor_register_variable("x", 4).unwrap();
    assert_eq!(scope.tensor_register_future_use("x", 2), Ok(()));
    assert_eq!(scope.generations("x"), vec![gen(4, 0)]);
    assert_eq!(
        scope.tensor_use_owned("x", 3),
        Err(ScopeError::UseBeforeRegistration("x".to_string(), 3))
    );
    assert_eq!(scope.generations("x"), vec![gen(4, 0)]);
}

#[test]
fn exhausted_generation_is_protocol_violation() {
    let mut scope = Scope::new();
    scope.tensor_register_variable("x", 0).unwrap();
    scope.tensor_register_future_use("x", 3).unwrap();
    assert_eq!(scope.tensor_use_owned("x", 3), Ok(Decision::Move("x".to_string())));
    assert_eq!(
        scope.tensor_use_owned("x", 3),
        Err(ScopeError::UseBeforeRegistration("x".to_string(), 3))
    );
    assert_eq!(scope.generations("x"), vec![gen(0, 0)]);
}

#[test]
fn unregistered_use_is_protocol_violation() {
    let mut scope = Scope::new();
    scope.tensor_register_variable("x", 1).unwrap();
    assert_eq!(
        scope.tensor_use_owned("x", 1),
        Err(ScopeError::UseBeforeRegistration("x".to_string(), 1))
    );
}

#[test]
fn repeated_production_is_idempotent() {
    let mut scope = Scope::new();
    scope.tensor_register_variable("x", 0).unwrap();
    scope.tensor_register_future_use("x", 1).unwrap();
    scope.tensor_register_variable("x", 0).unwrap();
    assert_eq!(scope.generations("x"), vec![gen(0, 1)]);
    scope.tensor_register_variable("x", 0).unwrap();
    assert_eq!(scope.generations("x"), vec![gen(0, 1)]);
}

#[test]
fn names_are_kept_apart() {
    let mut scope = Scope::new();
    scope.tensor_register_variable("x", 0).unwrap();
    scope.tensor_register_variable("y", 1).unwrap();
    scope.tensor_register_future_use("x", 2).unwrap();
    scope.tensor_register_future_use("x", 3).unwrap();
    scope.tensor_register_future_use("y", 3).unwrap();
    assert_eq!(scope.generations("x"), vec![gen(0, 2)]);
    assert_eq!(scope.generations("y"), vec![gen(1, 1)]);
    assert_eq!(scope.tensor_use_owned("y", 3), Ok(Decision::Move("y".to_string())));
    assert_eq!(scope.tensor_use_owned("x", 2), Ok(Decision::Duplicate("x".to_string())));
}

#[test]
fn largest_positions_are_accepted() {
    let mut scope = Scope::new();
    scope.tensor_register_variable("z", usize::MAX - 1).unwrap();
    scope.tensor_register_future_use("z", usize::MAX).unwrap();
    assert_eq!(scope.tensor_use_owned("z", usize::MAX), Ok(Decision::Move("z".to_string())));
}

#[test]
fn registration_after_emission_begins_is_out_of_phase() {
    let mut scope = Scope::new();
    assert!(!scope.is_emitting());
    scope.tensor_register_variable("x", 0).unwrap();
    scope.tensor_register_future_use("x", 1).unwrap();
    scope.tensor_register_future_use("x", 2).unwrap();
    assert!(!scope.is_emitting());
    assert_eq!(scope.tensor_use_owned("x", 1), Ok(Decision::Duplicate("x".to_string())));
    assert!(scope.is_emitting());
    assert_eq!(
        scope.tensor_register_future_use("x", 3),
        Err(ScopeError::OutOfPhase("x".to_string(), 3))
    );
    assert_eq!(
        scope.tensor_register_variable("y", 3),
        Err(ScopeError::OutOfPhase("y".to_string(), 3))
    );
    assert_eq!(scope.generations("x"), vec![gen(0, 1)]);
    assert_eq!(scope.generations("y"), vec![]);
    assert_eq!(scope.tensor_use_owned("x", 2), Ok(Decision::Move("x".to_string())));
}

#[test]
fn failed_use_also_begins_emission() {
    let mut scope = Scope::new();
    assert_eq!(
        scope.tensor_use_owned("q", 0),
        Err(ScopeError::UnknownVariable("q".to_string()))
    );
    assert!(scope.is_emitting());
    assert_eq!(
        scope.tensor_register_future_use("q", 0),
        Err(ScopeError::OutOfPhase("q".to_string(), 0))
    );
}
