use std::rc::Rc;

use htn_planner::construction_domain::create_problem_instance;
use htn_planner::network::HTN;
use htn_planner::search::{ProgressionSearch, SearchResult};
use htn_planner::tasks::{PrimitiveAction, Task};

#[test]
fn hierarchy_correctness_test() {
    let htn = create_problem_instance();
    let mut search = ProgressionSearch::new();
    let result = search.run(Vec::new(), htn, 100_000);
    if let SearchResult::Solved(x) = result {
        assert_eq!(x[2], "BuildFoundation");
        assert_eq!(x[3], "BuildFrame");
        assert_eq!(x[6], "BuildInterior");
        assert_eq!(x[7], "PayBuilder");
    }
}

#[test]
fn construction_plan_respects_the_hierarchy() {
    let htn = create_problem_instance();
    let mut search = ProgressionSearch::new();
    let result = search.run(Vec::new(), htn, 100_000);
    match result {
        SearchResult::Solved(x) => {
            assert_eq!(x.len(), 8);
            let pos = |name: &str| x.iter().position(|n| n == name).unwrap();
            // permits and hiring come before every construction step
            for early in ["ObtainPermit", "HireBuilder"] {
                for late in ["BuildFoundation", "BuildFrame", "BuildWalls", "BuildInterior"] {
                    if x.iter().any(|n| n == late) {
                        assert!(pos(early) < pos(late));
                    }
                }
            }
            // the interior is the last construction step, before payment
            assert_eq!(pos("BuildInterior"), 6);
            assert_eq!(pos("PayBuilder"), 7);
        }
        other => panic!("expected a plan, got {:?}", other),
    }
}

#[test]
fn run_on_empty_network_is_solved_at_once() {
    let empty = HTN::new(Vec::new(), Vec::new(), Vec::new());
    let mut search = ProgressionSearch::new();
    let result = search.run(Vec::new(), empty, 10);
    assert_eq!(result, SearchResult::Solved(Vec::new()));
}

#[test]
fn empty_network_is_solved_even_with_no_budget() {
    let empty = HTN::new(Vec::new(), Vec::new(), Vec::new());
    let mut search = ProgressionSearch::new();
    let result = search.run(Vec::new(), empty, 0);
    assert_eq!(result, SearchResult::Solved(Vec::new()));
}

#[test]
fn run_with_unsatisfiable_primitive_is_unsolvable() {
    let action = PrimitiveAction::new(
        "Blocked".to_string(),
        vec!["impossible".to_string()],
        Vec::new(),
        Vec::new(),
    );
    let htn = HTN::new(
        vec![1],
        Vec::new(),
        vec![(1, Rc::new(Task::Primitive(action)))],
    );
    let mut search = ProgressionSearch::new();
    let result = search.run(Vec::new(), htn, 10);
    assert_eq!(result, SearchResult::Unsolvable);
}

#[test]
fn run_reports_an_exhausted_budget() {
    let action = PrimitiveAction::new("Step".to_string(), Vec::new(), Vec::new(), Vec::new());
    let htn = HTN::new(
        vec![1, 2],
        vec![(1, 2)],
        vec![
            (1, Rc::new(Task::Primitive(action))),
            (2, Rc::new(Task::Primitive(PrimitiveAction::new(
                "Step2".to_string(),
                Vec::new(),
                Vec::new(),
                Vec::new(),
            )))),
        ],
    );
    let mut search = ProgressionSearch::new();
    let result = search.run(Vec::new(), htn, 1);
    assert_eq!(result, SearchResult::BudgetExceeded);
}

#[test]
fn goal_test_counts_tasks() {
    let empty = HTN::new(Vec::new(), Vec::new(), Vec::new());
    let node = htn_planner::search::SearchNode::new(Vec::new(), empty, Vec::new());
    assert!(node.is_goal());
    let one = HTN::new(
        vec![1],
        Vec::new(),
        vec![(1, Rc::new(Task::Primitive(PrimitiveAction::new(
            "A".to_string(),
            Vec::new(),
            Vec::new(),
            Vec::new(),
        ))))],
    );
    let node2 = htn_planner::search::SearchNode::new(Vec::new(), one, Vec::new());
    assert!(!node2.is_goal());
}
