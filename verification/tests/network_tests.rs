use std::rc::Rc;

use htn_planner::graph::Graph;
use htn_planner::network::{NetworkError, HTN};
use htn_planner::tasks::{CompoundTask, Method, PrimitiveAction, Task};

fn sorted(mut v: Vec<u32>) -> Vec<u32> {
    v.sort();
    v
}

fn primitive(name: &str) -> Task {
    Task::Primitive(PrimitiveAction::new(
        name.to_string(),
        Vec::new(),
        Vec::new(),
        Vec::new(),
    ))
}

fn create_initial_tasks() -> (Rc<Task>, Rc<Task>, Rc<Task>, Rc<Task>) {
    let t1 = primitive("ObtainPermit");
    let t2 = primitive("HireBuilder");
    let t3 = Task::Compound(CompoundTask::new("Construct".to_string(), Vec::new()));
    let t4 = primitive("PayBuilder");
    (Rc::new(t1), Rc::new(t2), Rc::new(t3), Rc::new(t4))
}

fn decomposition_tasks() -> (Task, Task, Task, Task, Task) {
    (
        primitive("BuildFoundation"),
        primitive("BuildFrame"),
        primitive("BuildRoof"),
        primitive("BuildWalls"),
        primitive("BuildInterior"),
    )
}

#[test]
fn network_instantiation() {
    let t: Vec<u32> = vec![1, 2, 3, 4];
    let (t1, t2, t3, t4) = create_initial_tasks();
    let alpha = vec![
        (1, Rc::clone(&t1)),
        (2, Rc::clone(&t2)),
        (3, Rc::clone(&t3)),
        (4, Rc::clone(&t4)),
    ];
    let orderings: Vec<(u32, u32)> = vec![(1, 3), (2, 3), (3, 4)];
    let network = HTN::new(t, orderings, alpha);
    assert_eq!(network.count_tasks(), 4);
    assert_eq!(network.get_task(1).unwrap(), t1.as_ref());
    assert_eq!(network.get_task(2).unwrap(), t2.as_ref());
    assert_eq!(network.get_task(3).unwrap(), t3.as_ref());
    assert_eq!(network.get_task(4).unwrap(), t4.as_ref());
    assert_eq!(network.get_task(5), None);
}

#[test]
fn unconstrained_tasks_test() {
    let t: Vec<u32> = vec![1, 2, 3, 4];
    let (t1, t2, t3, t4) = create_initial_tasks();
    let alpha = vec![(1, t1), (2, t2), (3, t3), (4, t4)];
    let orderings: Vec<(u32, u32)> = vec![(1, 3), (2, 3), (3, 4)];
    let network = HTN::new(t, orderings, alpha);
    let unconstrained = network.get_unconstrained_tasks();
    assert_eq!(sorted(unconstrained), vec![1, 2]);
}

#[test]
fn decomposition_test() {
    let t: Vec<u32> = vec![1, 2, 3, 4];
    let (t1, t2, t3, t4) = create_initial_tasks();
    let (t5, t6, t7, t8, t9) = decomposition_tasks();
    let t3_method = Method::new(
        "method-01".to_string(),
        HTN::new(
            vec![1, 2, 3, 4, 5],
            vec![(1, 2), (2, 3), (2, 4), (3, 5), (4, 5)],
            vec![
                (1, Rc::new(t5)),
                (2, Rc::new(t6)),
                (3, Rc::new(t7)),
                (4, Rc::new(t8)),
                (5, Rc::new(t9)),
            ],
        ),
    );
    let alpha = vec![(1, t1), (2, t2), (3, t3), (4, t4)];
    let orderings: Vec<(u32, u32)> = vec![(1, 3), (2, 3), (3, 4)];
    let network = HTN::new(t, orderings, alpha);
    let result = network.decompose(3, &t3_method).unwrap();
    assert_eq!(result.count_tasks(), 8);
    assert_eq!(sorted(result.get_unconstrained_tasks()), vec![1, 2]);
    assert_eq!(Graph::convert_edges_to_vec(&result.network.edges).len(), 8);
    assert_eq!(result.get_task(3), None);
    assert_eq!(result.network.get_neighbors(1).unwrap().len(), 1);
}

#[test]
fn decomposition_never_duplicates_ids() {
    // the fragment's ids all collide with the host's
    let (t1, t2, t3, t4) = create_initial_tasks();
    let (t5, t6, _, _, _) = decomposition_tasks();
    let method = Method::new(
        "m".to_string(),
        HTN::new(
            vec![1, 2],
            vec![(1, 2)],
            vec![(1, Rc::new(t5)), (2, Rc::new(t6))],
        ),
    );
    let network = HTN::new(
        vec![1, 2, 3, 4],
        vec![(1, 3), (2, 3), (3, 4)],
        vec![(1, t1), (2, t2), (3, t3), (4, t4)],
    );
    let result = network.decompose(3, &method).unwrap();
    assert_eq!(result.count_tasks(), 5);
    let mut ids: Vec<u32> = result.mappings.iter().map(|p| p.0).collect();
    let n = ids.len();
    ids.sort();
    ids.dedup();
    assert_eq!(ids.len(), n);
    let mut nodes = result.network.nodes.clone();
    let m = nodes.len();
    nodes.sort();
    nodes.dedup();
    assert_eq!(nodes.len(), m);
    assert_eq!(m, 5);
}

#[test]
fn decompose_absent_id_is_invalid_reference() {
    let (t1, t2, t3, t4) = create_initial_tasks();
    let (t5, _, _, _, _) = decomposition_tasks();
    let method = Method::new(
        "m".to_string(),
        HTN::new(vec![10], vec![], vec![(10, Rc::new(t5))]),
    );
    let network = HTN::new(
        vec![1, 2, 3, 4],
        vec![(1, 3), (2, 3), (3, 4)],
        vec![(1, t1), (2, t2), (3, t3), (4, t4)],
    );
    // 9 is not in the network, and 4 has no outgoing edge
    assert_eq!(
        network.decompose(9, &method).unwrap_err(),
        NetworkError::InvalidReference
    );
    assert_eq!(
        network.decompose(4, &method).unwrap_err(),
        NetworkError::InvalidReference
    );
}

#[test]
fn decompose_dangling_fragment_is_malformed() {
    let (t1, t2, t3, t4) = create_initial_tasks();
    let (t5, _, _, _, _) = decomposition_tasks();
    // the fragment's edge mentions id 7, which it does not define
    let method = Method::new(
        "m".to_string(),
        HTN::new(vec![10], vec![(10, 7)], vec![(10, Rc::new(t5))]),
    );
    let network = HTN::new(
        vec![1, 2, 3, 4],
        vec![(1, 3), (2, 3), (3, 4)],
        vec![(1, t1), (2, t2), (3, t3), (4, t4)],
    );
    assert_eq!(
        network.decompose(3, &method).unwrap_err(),
        NetworkError::MalformedDecomposition
    );
}

#[test]
fn isomorphism_test() {
    let (t1, t2, t3, t4) = create_initial_tasks();
    // first graph
    let nodes1: Vec<u32> = vec![1, 2, 3, 4];
    let orderings1: Vec<(u32, u32)> = vec![(1, 3), (2, 3), (3, 4)];
    let alpha = vec![(1, t1), (2, t2), (3, t3), (4, t4)];
    let htn1 = HTN::new(nodes1, orderings1, alpha);

    let (t5, t6, t7, t8) = create_initial_tasks();
    // second graph
    let nodes2: Vec<u32> = vec![5, 6, 7, 8];
    let orderings2: Vec<(u32, u32)> = vec![(5, 7), (6, 7), (7, 8)];
    let htn2 = HTN::new(nodes2, orderings2, vec![(5, t5), (6, t6), (7, t7), (8, t8)]);

    let result = HTN::is_isomorphic(&htn1, &htn2);
    assert_eq!(result, true);
}

#[test]
fn isomorphism_is_reflexive_and_symmetric_on_values() {
    let (t1, t2, t3, t4) = create_initial_tasks();
    let htn1 = HTN::new(
        vec![1, 2, 3, 4],
        vec![(1, 3), (2, 3), (3, 4)],
        vec![(1, t1), (2, t2), (3, t3), (4, t4)],
    );
    assert!(HTN::is_isomorphic(&htn1, &htn1));

    // a chain of two has a different number of layers
    let (u1, u2, _, _) = create_initial_tasks();
    let htn2 = HTN::new(vec![1, 2], vec![(1, 2)], vec![(1, u1), (2, u2)]);
    assert!(!HTN::is_isomorphic(&htn1, &htn2));
    assert_eq!(
        HTN::is_isomorphic(&htn1, &htn2),
        HTN::is_isomorphic(&htn2, &htn1)
    );
}

#[test]
fn is_primitive_test() {
    let (t1, t2, t3, t4) = create_initial_tasks();
    let nodes1: Vec<u32> = vec![1, 2, 3, 4];
    let orderings1: Vec<(u32, u32)> = vec![(1, 3), (2, 3), (3, 4)];
    let alpha = vec![(1, t1), (2, t2), (3, t3), (4, t4)];
    let htn = HTN::new(nodes1, orderings1, alpha);
    assert_eq!(htn.is_primitive(1).unwrap(), true);
    assert_eq!(htn.is_primitive(2).unwrap(), true);
    assert_eq!(htn.is_primitive(3).unwrap(), false);
    assert_eq!(htn.is_primitive(4).unwrap(), true);
}

#[test]
fn is_primitive_absent_id_is_invalid_reference() {
    let (t1, _, _, _) = create_initial_tasks();
    let htn = HTN::new(vec![1], vec![], vec![(1, t1)]);
    assert_eq!(htn.is_primitive(9).unwrap_err(), NetworkError::InvalidReference);
}

#[test]
fn apply_action_test() {
    let (t1, t2, t3, t4) = create_initial_tasks();
    let nodes1: Vec<u32> = vec![1, 2, 3, 4];
    let orderings1: Vec<(u32, u32)> = vec![(1, 3), (2, 3), (3, 4)];
    let alpha = vec![(1, t1), (2, t2), (3, t3), (4, t4)];
    let htn = HTN::new(nodes1, orderings1, alpha);
    let new_htn = htn.apply_action(2);
    assert_eq!(new_htn.count_tasks(), 3);
    assert_eq!(new_htn.get_task(2), None);
    assert_eq!(new_htn.is_primitive(3).unwrap(), false);
    assert_eq!(new_htn.mappings.iter().any(|p| p.0 == 2), false);
    let new_htn_2 = new_htn.apply_action(1);
    assert_eq!(new_htn_2.count_tasks(), 2);
    assert_eq!(new_htn_2.get_task(1), None);
    assert_eq!(new_htn_2.is_primitive(3).unwrap(), false);
    assert_eq!(new_htn_2.mappings.iter().any(|p| p.0 == 1), false);
}

#[test]
fn tasks_compare_by_variant_and_name_only() {
    let lean = primitive("Op");
    let rich = Task::Primitive(PrimitiveAction::new(
        "Op".to_string(),
        vec!["needs".to_string()],
        vec!["adds".to_string()],
        vec!["dels".to_string()],
    ));
    assert_eq!(lean, rich);
    let compound = Task::Compound(CompoundTask::new("Op".to_string(), Vec::new()));
    assert_ne!(lean, compound);
    assert_ne!(compound, primitive("Other"));
}

#[test]
fn duplicate_mapping_keys_keep_the_first_entry() {
    let first = Rc::new(primitive("First"));
    let second = Rc::new(primitive("Second"));
    let htn = HTN::new(vec![1], vec![], vec![(1, first), (1, second)]);
    assert_eq!(htn.mappings.len(), 1);
    assert_eq!(htn.get_task(1).unwrap().get_name(), "First".to_string());
}
