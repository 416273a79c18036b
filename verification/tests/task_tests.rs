use htn_planner::tasks::{Applicability, CompoundTask, PrimitiveAction, Task};

fn facts(names: &[&str]) -> Vec<String> {
    names.iter().map(|n| n.to_string()).collect()
}

fn contains_fact(state: &Vec<String>, fact: &str) -> bool {
    state.iter().any(|f| f == fact)
}

#[test]
fn applicability_test() {
    let mut state = facts(&["is_loaded", "object_visible"]);
    let precond = facts(&["is_loaded", "object_visible"]);
    let action = PrimitiveAction::new("Action1".to_string(), precond, facts(&[]), facts(&[]));
    assert_eq!(action.is_applicable(&state), true);
    state.push("is_close".to_string());
    assert_eq!(action.is_applicable(&state), true);
    state.retain(|f| f != "object_visible");
    assert_eq!(action.is_applicable(&state), false);
}

#[test]
fn transition_test() {
    let state = facts(&["is_loaded", "object_visible"]);
    let precond = facts(&["is_loaded", "object_visible"]);
    let action = PrimitiveAction::new(
        "Action1".to_string(),
        precond,
        facts(&["ready"]),
        facts(&["is_loaded"]),
    );
    let new_state = action.transition(&state);
    assert_eq!(contains_fact(&new_state, "ready"), true);
    assert_eq!(new_state.len(), 2);
}

#[test]
fn task_name_test() {
    let compound = Task::Compound(CompoundTask::new("task1".to_string(), Vec::new()));
    assert_eq!(compound.get_name(), "task1".to_string());

    let primitive = Task::Primitive(PrimitiveAction::new(
        "task2".to_string(),
        Vec::new(),
        Vec::new(),
        Vec::new(),
    ));
    assert_eq!(primitive.get_name(), "task2".to_string());
}

#[test]
fn transition_removes_deleted_facts() {
    let state = facts(&["a", "b", "c"]);
    let action = PrimitiveAction::new(
        "Act".to_string(),
        facts(&[]),
        facts(&["d", "a"]),
        facts(&["b", "c"]),
    );
    let new_state = action.transition(&state);
    assert_eq!(new_state.len(), 2);
    assert!(contains_fact(&new_state, "a"));
    assert!(contains_fact(&new_state, "d"));
    assert!(!contains_fact(&new_state, "b"));
    assert!(!contains_fact(&new_state, "c"));
}

#[test]
fn empty_precondition_is_always_applicable() {
    let action = PrimitiveAction::new("Act".to_string(), facts(&[]), facts(&[]), facts(&[]));
    assert!(action.is_applicable(&facts(&[])));
    assert!(action.is_applicable(&facts(&["anything"])));
}
