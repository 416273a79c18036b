//! A small building domain: obtain a permit, hire a builder, carry
//! out the construction through one decomposition method, and pay.

use vstd::prelude::*;
use std::rc::Rc;
use crate::network::{fragment_ok, keys_of, lemma_map_of_dom, lemma_map_of_index, task_of, HTN};
use crate::tasks::{CompoundTask, Method, PrimitiveAction, Task};

verus! {

broadcast use {
    vstd::seq_lib::group_seq_properties,
    vstd::set::group_set_axioms,
};

/// The decomposition fragment of the `Construct` method: five
/// construction steps, the foundation first, frame before roof and
/// walls, the interior last.
pub open spec fn construct_fragment_ok(d: HTN) -> bool {
    &&& d.wf()
    &&& d.network.node_set() == set![1u32, 2u32, 3u32, 4u32, 5u32]
    &&& d.network.edge_set() == set![
            (1u32, 2u32),
            (2u32, 3u32),
            (2u32, 4u32),
            (3u32, 5u32),
            (4u32, 5u32),
        ]
    &&& d.task_map()[1].label() == (true, "BuildFoundation"@)
    &&& d.task_map()[2].label() == (true, "BuildFrame"@)
    &&& d.task_map()[3].label() == (true, "BuildRoof"@)
    &&& d.task_map()[4].label() == (true, "BuildWalls"@)
    &&& d.task_map()[5].label() == (true, "BuildInterior"@)
}

/// The five primitive construction steps a `Construct` task
/// decomposes into.
pub fn decomposition_tasks() -> (r: (Task, Task, Task, Task, Task))
    ensures
        r.0.label() == (true, "BuildFoundation"@),
        r.1.label() == (true, "BuildFrame"@),
        r.2.label() == (true, "BuildRoof"@),
        r.3.label() == (true, "BuildWalls"@),
        r.4.label() == (true, "BuildInterior"@),
{
    let t1 = Task::Primitive(PrimitiveAction::new(
        "BuildFoundation".to_string(),
        Vec::new(),
        Vec::new(),
        Vec::new(),
    ));
    let t2 = Task::Primitive(PrimitiveAction::new(
        "BuildFrame".to_string(),
        Vec::new(),
        Vec::new(),
        Vec::new(),
    ));
    let t3 = Task::Primitive(PrimitiveAction::new(
        "BuildRoof".to_string(),
        Vec::new(),
        Vec::new(),
        Vec::new(),
    ));
    let t4 = Task::Primitive(PrimitiveAction::new(
        "BuildWalls".to_string(),
        Vec::new(),
        Vec::new(),
        Vec::new(),
    ));
    let t5 = Task::Primitive(PrimitiveAction::new(
        "BuildInterior".to_string(),
        Vec::new(),
        Vec::new(),
        Vec::new(),
    ));
    (t1, t2, t3, t4, t5)
}

/// The four top-level tasks: two permits-and-people primitives, the
/// compound `Construct` task with its single method, and the final
/// payment.
pub fn create_initial_tasks() -> (r: (Rc<Task>, Rc<Task>, Rc<Task>, Rc<Task>))
    ensures
        task_of(r.0).label() == (true, "ObtainPermit"@),
        task_of(r.1).label() == (true, "HireBuilder"@),
        task_of(r.2).label() == (false, "Construct"@),
        task_of(r.3).label() == (true, "PayBuilder"@),
        (task_of(r.2) matches Task::Compound(c)
            && c.methods@.len() == 1
            && c.methods@[0].name@ == "method-01"@
            && fragment_ok(c.methods@[0].decomposition)
            && construct_fragment_ok(c.methods@[0].decomposition)),
{
    let t1 = Task::Primitive(PrimitiveAction::new(
        "ObtainPermit".to_string(),
        Vec::new(),
        Vec::new(),
        Vec::new(),
    ));
    let t2 = Task::Primitive(PrimitiveAction::new(
        "HireBuilder".to_string(),
        Vec::new(),
        Vec::new(),
        Vec::new(),
    ));
    let (d1, d2, d3, d4, d5) = decomposition_tasks();
    let mut sub_mappings: Vec<(u32, Rc<Task>)> = Vec::new();
    sub_mappings.push((1, Rc::new(d1)));
    sub_mappings.push((2, Rc::new(d2)));
    sub_mappings.push((3, Rc::new(d3)));
    sub_mappings.push((4, Rc::new(d4)));
    sub_mappings.push((5, Rc::new(d5)));
    let mut sub_nodes: Vec<u32> = Vec::new();
    sub_nodes.push(1);
    sub_nodes.push(2);
    sub_nodes.push(3);
    sub_nodes.push(4);
    sub_nodes.push(5);
    let mut sub_orderings: Vec<(u32, u32)> = Vec::new();
    sub_orderings.push((1, 2));
    sub_orderings.push((2, 3));
    sub_orderings.push((2, 4));
    sub_orderings.push((3, 5));
    sub_orderings.push((4, 5));
    let ghost sub_nodes_seq = sub_nodes@;
    let ghost sub_orderings_seq = sub_orderings@;
    let ghost sub_mappings_seq = sub_mappings@;
    let method = Method::new(
        "method-01".to_string(),
        HTN::new(sub_nodes, sub_orderings, sub_mappings),
    );
    proof {
        let d = method.decomposition;
        assert(sub_nodes_seq.len() == 5 && sub_nodes_seq[0] == 1u32 && sub_nodes_seq[1] == 2u32
            && sub_nodes_seq[2] == 3u32 && sub_nodes_seq[3] == 4u32 && sub_nodes_seq[4] == 5u32);
        assert(sub_orderings_seq.len() == 5 && sub_orderings_seq[0] == (1u32, 2u32)
            && sub_orderings_seq[1] == (2u32, 3u32) && sub_orderings_seq[2] == (2u32, 4u32)
            && sub_orderings_seq[3] == (3u32, 5u32) && sub_orderings_seq[4] == (4u32, 5u32));
        assert(keys_of(sub_mappings_seq).no_duplicates());
        assert(d.mappings@ == sub_mappings_seq);
        assert(d.network.node_set() == sub_nodes_seq.to_set());
        assert(d.network.edge_set() == sub_orderings_seq.to_set());
        assert forall|e: (u32, u32)| #[trigger] d.network.edge_set().contains(e) implies
            d.network.node_set().contains(e.0) && d.network.node_set().contains(e.1) by {
            let j = choose|j: int| 0 <= j < sub_orderings_seq.len()
                && #[trigger] sub_orderings_seq[j] == e;
            assert(sub_nodes_seq.contains(e.0)) by {
                if e.0 == 1 {
                    assert(sub_nodes_seq[0] == 1);
                } else if e.0 == 2 {
                    assert(sub_nodes_seq[1] == 2);
                } else if e.0 == 3 {
                    assert(sub_nodes_seq[2] == 3);
                } else {
                    assert(sub_nodes_seq[3] == 4);
                }
            }
            assert(sub_nodes_seq.contains(e.1)) by {
                if e.1 == 2 {
                    assert(sub_nodes_seq[1] == 2);
                } else if e.1 == 3 {
                    assert(sub_nodes_seq[2] == 3);
                } else if e.1 == 4 {
                    assert(sub_nodes_seq[3] == 4);
                } else {
                    assert(sub_nodes_seq[4] == 5);
                }
            }
        }
        assert(keys_of(sub_mappings_seq).len() == 5
            && keys_of(sub_mappings_seq)[0] == 1u32 && keys_of(sub_mappings_seq)[1] == 2u32
            && keys_of(sub_mappings_seq)[2] == 3u32 && keys_of(sub_mappings_seq)[3] == 4u32
            && keys_of(sub_mappings_seq)[4] == 5u32);
        assert forall|k: u32| keys_of(sub_mappings_seq).to_set().contains(k) <==>
            #[trigger] d.network.node_set().contains(k) by {
            if keys_of(sub_mappings_seq).contains(k) {
                let j = choose|j: int| 0 <= j < 5 && #[trigger] keys_of(sub_mappings_seq)[j] == k;
                assert(sub_nodes_seq[j] == k);
                assert(sub_nodes_seq.contains(k));
            }
            if sub_nodes_seq.contains(k) {
                let j = choose|j: int| 0 <= j < 5 && #[trigger] sub_nodes_seq[j] == k;
                assert(keys_of(sub_mappings_seq)[j] == k);
                assert(keys_of(sub_mappings_seq).contains(k));
            }
        }
        assert(keys_of(sub_mappings_seq).to_set() =~= d.network.node_set());
        assert(fragment_ok(d));
        assert forall|x: u32| d.network.node_set().contains(x) <==>
            #[trigger] set![1u32, 2u32, 3u32, 4u32, 5u32].contains(x) by {
            if sub_nodes_seq.contains(x) {
                let j = choose|j: int| 0 <= j < 5 && #[trigger] sub_nodes_seq[j] == x;
            }
            if set![1u32, 2u32, 3u32, 4u32, 5u32].contains(x) {
                if x == 1 {
                    assert(sub_nodes_seq.contains(x));
                } else if x == 2 {
                    assert(sub_nodes_seq.contains(x));
                } else if x == 3 {
                    assert(sub_nodes_seq.contains(x));
                } else if x == 4 {
                    assert(sub_nodes_seq.contains(x));
                } else {
                    assert(sub_nodes_seq.contains(x));
                }
            }
        }
        assert(d.network.node_set() =~= set![1u32, 2u32, 3u32, 4u32, 5u32]);
        let edge_lits = set![(1u32, 2u32), (2u32, 3u32), (2u32, 4u32), (3u32, 5u32), (4u32, 5u32)];
        assert forall|e: (u32, u32)| d.network.edge_set().contains(e) <==>
            #[trigger] edge_lits.contains(e) by {
            if sub_orderings_seq.contains(e) {
                let j = choose|j: int| 0 <= j < 5 && #[trigger] sub_orderings_seq[j] == e;
            }
            if edge_lits.contains(e) {
                if e == (1u32, 2u32) {
                    assert(sub_orderings_seq.contains(e));
                } else if e == (2u32, 3u32) {
                    assert(sub_orderings_seq.contains(e));
                } else if e == (2u32, 4u32) {
                    assert(sub_orderings_seq.contains(e));
                } else if e == (3u32, 5u32) {
                    assert(sub_orderings_seq.contains(e));
                } else {
                    assert(sub_orderings_seq.contains(e));
                }
            }
        }
        assert(d.network.edge_set() =~= edge_lits);
        lemma_map_of_dom(sub_mappings_seq);
        assert(d.task_map().dom() =~= d.network.node_set());
        assert(d.wf());
        lemma_map_of_index(sub_mappings_seq, 0);
        lemma_map_of_index(sub_mappings_seq, 1);
        lemma_map_of_index(sub_mappings_seq, 2);
        lemma_map_of_index(sub_mappings_seq, 3);
        lemma_map_of_index(sub_mappings_seq, 4);
        assert(construct_fragment_ok(d));
    }
    let mut methods: Vec<Method> = Vec::new();
    methods.push(method);
    let t3 = Task::Compound(CompoundTask::new("Construct".to_string(), methods));
    let t4 = Task::Primitive(PrimitiveAction::new(
        "PayBuilder".to_string(),
        Vec::new(),
        Vec::new(),
        Vec::new(),
    ));
    (Rc::new(t1), Rc::new(t2), Rc::new(t3), Rc::new(t4))
}

/// The building problem: permits and hiring before construction,
/// construction before payment.
pub fn create_problem_instance() -> (r: HTN)
    ensures
        r.wf(),
        r.network.node_set() == set![1u32, 2u32, 3u32, 4u32],
        r.network.edge_set() == set![(1u32, 3u32), (2u32, 3u32), (3u32, 4u32)],
        r.task_map()[1].label() == (true, "ObtainPermit"@),
        r.task_map()[2].label() == (true, "HireBuilder"@),
        r.task_map()[3].label() == (false, "Construct"@),
        r.task_map()[4].label() == (true, "PayBuilder"@),
        (r.task_map()[3] matches Task::Compound(c)
            && c.methods@.len() == 1
            && c.methods@[0].name@ == "method-01"@
            && fragment_ok(c.methods@[0].decomposition)
            && construct_fragment_ok(c.methods@[0].decomposition)),
{
    let (t1, t2, t3, t4) = create_initial_tasks();
    let mut nodes: Vec<u32> = Vec::new();
    nodes.push(1);
    nodes.push(2);
    nodes.push(3);
    nodes.push(4);
    let mut orderings: Vec<(u32, u32)> = Vec::new();
    orderings.push((1, 3));
    orderings.push((2, 3));
    orderings.push((3, 4));
    let mut mappings: Vec<(u32, Rc<Task>)> = Vec::new();
    mappings.push((1, t1));
    mappings.push((2, t2));
    mappings.push((3, t3));
    mappings.push((4, t4));
    let ghost nodes_seq = nodes@;
    let ghost orderings_seq = orderings@;
    let ghost mappings_seq = mappings@;
    let r = HTN::new(nodes, orderings, mappings);
    proof {
        assert(nodes_seq.len() == 4 && nodes_seq[0] == 1u32 && nodes_seq[1] == 2u32
            && nodes_seq[2] == 3u32 && nodes_seq[3] == 4u32);
        assert forall|x: u32| nodes_seq.to_set().contains(x) <==>
            #[trigger] set![1u32, 2u32, 3u32, 4u32].contains(x) by {
            if nodes_seq.contains(x) {
                let j = choose|j: int| 0 <= j < 4 && nodes_seq[j] == x;
            }
            if set![1u32, 2u32, 3u32, 4u32].contains(x) {
                if x == 1 {
                    assert(nodes_seq.contains(x));
                } else if x == 2 {
                    assert(nodes_seq.contains(x));
                } else if x == 3 {
                    assert(nodes_seq.contains(x));
                } else {
                    assert(nodes_seq.contains(x));
                }
            }
        }
        assert(r.network.node_set() =~= set![1u32, 2u32, 3u32, 4u32]);
        assert(orderings_seq.len() == 3 && orderings_seq[0] == (1u32, 3u32)
            && orderings_seq[1] == (2u32, 3u32) && orderings_seq[2] == (3u32, 4u32));
        assert forall|e: (u32, u32)| orderings_seq.to_set().contains(e) <==>
            #[trigger] set![(1u32, 3u32), (2u32, 3u32), (3u32, 4u32)].contains(e) by {
            if orderings_seq.contains(e) {
                let j = choose|j: int| 0 <= j < 3 && orderings_seq[j] == e;
            }
            if set![(1u32, 3u32), (2u32, 3u32), (3u32, 4u32)].contains(e) {
                if e == (1u32, 3u32) {
                    assert(orderings_seq.contains(e));
                } else if e == (2u32, 3u32) {
                    assert(orderings_seq.contains(e));
                } else {
                    assert(orderings_seq.contains(e));
                }
            }
        }
        assert(r.network.edge_set() =~= set![(1u32, 3u32), (2u32, 3u32), (3u32, 4u32)]);
        assert(keys_of(mappings_seq).len() == 4
            && keys_of(mappings_seq)[0] == 1u32 && keys_of(mappings_seq)[1] == 2u32
            && keys_of(mappings_seq)[2] == 3u32 && keys_of(mappings_seq)[3] == 4u32);
        assert(keys_of(mappings_seq).no_duplicates());
        assert(r.mappings@ == mappings_seq);
        lemma_map_of_dom(mappings_seq);
        assert forall|k: u32| keys_of(mappings_seq).to_set().contains(k) <==>
            #[trigger] r.network.node_set().contains(k) by {
            if keys_of(mappings_seq).contains(k) {
                let j = choose|j: int| 0 <= j < 4 && keys_of(mappings_seq)[j] == k;
            }
            if r.network.node_set().contains(k) {
                if k == 1 {
                    assert(keys_of(mappings_seq).contains(k));
                } else if k == 2 {
                    assert(keys_of(mappings_seq).contains(k));
                } else if k == 3 {
                    assert(keys_of(mappings_seq).contains(k));
                } else {
                    assert(keys_of(mappings_seq).contains(k));
                }
            }
        }
        assert(r.task_map().dom() =~= r.network.node_set());
        assert forall|e: (u32, u32)| #[trigger] r.network.edge_set().contains(e) implies
            r.network.node_set().contains(e.0) && r.network.node_set().contains(e.1) by {}
        assert(r.wf());
        crate::network::lemma_map_of_index(mappings_seq, 0);
        crate::network::lemma_map_of_index(mappings_seq, 1);
        crate::network::lemma_map_of_index(mappings_seq, 2);
        crate::network::lemma_map_of_index(mappings_seq, 3);
    }
    r
}

} // verus!
