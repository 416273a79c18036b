//! Breadth-first progression search: a FIFO frontier of search nodes,
//! each holding a world state, a task network, and the action names
//! applied so far. Popped nodes branch on primitive application or on
//! compound decomposition until a network with no task is reached, the
//! frontier empties, or the step budget runs out.

use vstd::prelude::*;
use std::collections::VecDeque;
use crate::network::HTN;
use crate::tasks::{fact_set, Applicability, Method, PrimitiveAction, Task};

verus! {

broadcast use {
    vstd::seq_lib::group_seq_properties,
    vstd::set::group_set_axioms,
};

/// The outcome of a search: an ordered plan of primitive-action
/// names, an exhausted frontier, or an exhausted step budget.
#[derive(Debug, PartialEq)]
pub enum SearchResult {
    Solved(Vec<String>),
    Unsolvable,
    BudgetExceeded,
}

/// One frontier entry: a world state, a task network, and the action
/// names applied on the path from the root.
#[derive(Debug)]
pub struct SearchNode {
    pub state: Vec<String>,
    pub network: HTN,
    pub sequence: Vec<String>,
}

impl SearchNode {
    /// Packs a state, a network and a name sequence into a node.
    pub fn new(state: Vec<String>, network: HTN, sequence: Vec<String>) -> (r: SearchNode)
        ensures
            r.state == state,
            r.network == network,
            r.sequence == sequence,
    {
        SearchNode { state, network, sequence }
    }

    /// The node is a goal exactly when no task is left.
    pub fn is_goal(&self) -> (b: bool)
        requires
            self.network.wf(),
        ensures
            b == (self.network.network.node_set().len() == 0),
    {
        self.network.count_tasks() == 0
    }
}

/// Copies a list of names.
fn clone_strings(v: &Vec<String>) -> (r: Vec<String>)
    ensures
        r@ == v@,
{
    let mut r: Vec<String> = Vec::new();
    let mut i: usize = 0;
    while i < v.len()
        invariant
            i <= v@.len(),
            r@ == v@.take(i as int),
        decreases v@.len() - i,
    {
        r.push(v[i].clone());
        proof {
            assert(v@.take(i + 1) =~= v@.take(i as int).push(v@[i as int]));
        }
        i += 1;
    }
    proof {
        assert(v@.take(v@.len() as int) =~= v@);
    }
    r
}

/// No ready task offers a way forward from this state: every
/// unconstrained task is a primitive whose precondition the state
/// does not satisfy.
pub open spec fn stuck_at_start(n: HTN, state: Vec<String>) -> bool {
    forall|t: u32| #[trigger] n.network.unconstrained_set().contains(t) ==>
        match n.task_map()[t] {
            Task::Primitive(a) => !a.pre_set().subset_of(fact_set(state)),
            Task::Compound(_) => false,
        }
}

/// A planner configuration: the facts of the world state, the task
/// network still to do, and the action names applied so far.
pub open spec fn config_of(node: SearchNode) -> (Set<Seq<char>>, HTN, Seq<Seq<char>>) {
    (fact_set(node.state), node.network, node.sequence.deep_view())
}

/// One primitive move: a ready primitive task whose precondition the
/// state satisfies is removed from the network, the state moves by
/// its transition, and its name is appended to the plan.
pub open spec fn config_step_primitive(
    c1: (Set<Seq<char>>, HTN, Seq<Seq<char>>),
    c2: (Set<Seq<char>>, HTN, Seq<Seq<char>>),
) -> bool {
    exists|t: u32, a: PrimitiveAction|
        #![trigger c1.1.task_map()[t], a.pre_set()]
        {
            &&& c1.1.network.unconstrained_set().contains(t)
            &&& c1.1.task_map()[t] == Task::Primitive(a)
            &&& a.pre_set().subset_of(c1.0)
            &&& c2.0 == c1.0.difference(a.del_set()).union(a.add_set())
            &&& c2.1.wf()
            &&& c2.1.task_map() == c1.1.task_map().remove(t)
            &&& c2.1.network.node_set() == c1.1.network.node_set().remove(t)
            &&& c2.1.network.edge_set() == c1.1.network.edges_avoiding(t)
            &&& c2.2 == c1.2.push(a.name@)
        }
}

/// One decomposition move: a ready compound task is replaced by the
/// fragment of one of its methods; state and plan are unchanged.
pub open spec fn config_step_decompose(
    c1: (Set<Seq<char>>, HTN, Seq<Seq<char>>),
    c2: (Set<Seq<char>>, HTN, Seq<Seq<char>>),
) -> bool {
    exists|t: u32, m: Method|
        #![trigger c1.1.task_map()[t], m.decomposition]
        {
            &&& c1.1.network.unconstrained_set().contains(t)
            &&& (c1.1.task_map()[t] matches Task::Compound(ct) && ct.methods@.contains(m))
            &&& c2.1.wf()
            &&& (exists|phi: Map<u32, u32>| c1.1.decompose_result_ok(t, m.decomposition, phi, c2.1))
            &&& c2.0 == c1.0
            &&& c2.2 == c1.2
        }
}

/// One legal move of the planner between configurations.
pub open spec fn config_step(
    c1: (Set<Seq<char>>, HTN, Seq<Seq<char>>),
    c2: (Set<Seq<char>>, HTN, Seq<Seq<char>>),
) -> bool {
    config_step_primitive(c1, c2) || config_step_decompose(c1, c2)
}

/// The configuration `c` can be reached from the initial network and
/// state by a chain of legal moves.
pub open spec fn search_reachable(
    net: HTN,
    state: Set<Seq<char>>,
    c: (Set<Seq<char>>, HTN, Seq<Seq<char>>),
) -> bool {
    exists|tr: Seq<(Set<Seq<char>>, HTN, Seq<Seq<char>>)>|
        {
            &&& tr.len() >= 1
            &&& tr[0] == (state, net, Seq::<Seq<char>>::empty())
            &&& (forall|i: int| 0 <= i < tr.len() - 1 ==> config_step(#[trigger] tr[i], tr[i + 1]))
            &&& tr.last() == c
        }
}

/// The plan names a valid execution: from the initial network and
/// state, a chain of legal moves — each decomposing a ready compound
/// task by one of its methods, or removing a ready primitive task
/// whose precondition held, moving the state by its transition and
/// appending its name — ends at a network with no task, having
/// applied exactly the names of `plan`, in order.
pub open spec fn plan_ok(net: HTN, state: Set<Seq<char>>, plan: Seq<Seq<char>>) -> bool {
    exists|c: (Set<Seq<char>>, HTN, Seq<Seq<char>>)|
        #[trigger] search_reachable(net, state, c)
        && c.1.network.node_set().len() == 0
        && c.2 == plan
}

/// The initial configuration is reachable by the empty chain.
proof fn lemma_reachable_init(net: HTN, state: Set<Seq<char>>)
    ensures
        search_reachable(net, state, (state, net, Seq::<Seq<char>>::empty())),
{
    let c = (state, net, Seq::<Seq<char>>::empty());
    let tr = seq![c];
    assert(tr.len() >= 1 && tr[0] == c && tr.last() == c);
    assert(forall|i: int| 0 <= i < tr.len() - 1 ==> config_step(#[trigger] tr[i], tr[i + 1]));
}

/// One more legal move keeps a configuration reachable.
proof fn lemma_reachable_step(
    net: HTN,
    state: Set<Seq<char>>,
    c1: (Set<Seq<char>>, HTN, Seq<Seq<char>>),
    c2: (Set<Seq<char>>, HTN, Seq<Seq<char>>),
)
    requires
        search_reachable(net, state, c1),
        config_step(c1, c2),
    ensures
        search_reachable(net, state, c2),
{
    let tr = choose|tr: Seq<(Set<Seq<char>>, HTN, Seq<Seq<char>>)>|
        {
            &&& tr.len() >= 1
            &&& tr[0] == (state, net, Seq::<Seq<char>>::empty())
            &&& (forall|i: int| 0 <= i < tr.len() - 1 ==> config_step(#[trigger] tr[i], tr[i + 1]))
            &&& tr.last() == c1
        };
    let tr2 = tr.push(c2);
    assert(tr2.len() >= 1);
    assert(tr2[0] == tr[0]);
    assert(tr2.last() == c2);
    assert forall|i: int| 0 <= i < tr2.len() - 1 implies
        config_step(#[trigger] tr2[i], tr2[i + 1]) by {
        if i < tr.len() - 1 {
            assert(tr2[i] == tr[i] && tr2[i + 1] == tr[i + 1]);
        } else {
            assert(tr2[i] == tr.last() && tr2[i + 1] == c2);
        }
    }
}

/// The breadth-first progression search. The frontier is a FIFO
/// queue; ready compound tasks are decomposed before any primitive
/// past them is applied.
pub struct ProgressionSearch {
    pub fringe: VecDeque<SearchNode>,
}

impl ProgressionSearch {
    /// A search with an empty frontier.
    pub fn new() -> (r: ProgressionSearch)
        ensures
            r.fringe@.len() == 0,
    {
        ProgressionSearch { fringe: VecDeque::new() }
    }

    /// Runs the search from an initial state and network, expanding
    /// at most `budget` frontier nodes. A network with zero tasks is
    /// solved at once with the empty plan, whatever the budget; a
    /// start that offers no applicable primitive and no compound to
    /// decompose is unsolvable; a solved result always names a valid
    /// plan; and an unsolvable result means the frontier truly
    /// emptied. A branch whose decomposition would not leave room for
    /// fresh ids, or whose chosen task has no successor edge, is
    /// dropped as a dead end.
    pub fn run(
        &mut self,
        initial_state: Vec<String>,
        initial_network: HTN,
        budget: usize,
    ) -> (r: SearchResult)
        requires
            old(self).fringe@.len() == 0,
            initial_network.wf(),
        ensures
            r matches SearchResult::Solved(s)
                ==> plan_ok(initial_network, fact_set(initial_state), s.deep_view()),
            r == SearchResult::Unsolvable ==> final(self).fringe@.len() == 0,
            initial_network.network.node_set().len() == 0
                ==> (r matches SearchResult::Solved(s) && s@.len() == 0),
            budget == 0 && initial_network.network.node_set().len() > 0
                ==> r == SearchResult::BudgetExceeded,
            budget >= 1 && initial_network.network.node_set().len() > 0
                && stuck_at_start(initial_network, initial_state)
                ==> r == SearchResult::Unsolvable,
    {
        let ghost inet = initial_network;
        let ghost istate = initial_state;
        let ghost istate_set = fact_set(initial_state);
        let ghost goal_start = initial_network.network.node_set().len() == 0;
        let ghost dead_start = budget >= 1 && initial_network.network.node_set().len() > 0
            && stuck_at_start(initial_network, initial_state);
        let init = SearchNode::new(initial_state, initial_network, Vec::new());
        proof {
            lemma_reachable_init(inet, istate_set);
            assert(init.sequence@ =~= Seq::<String>::empty());
            assert(init.sequence.deep_view() =~= Seq::<Seq<char>>::empty());
            assert(config_of(init) == (istate_set, inet, Seq::<Seq<char>>::empty()));
        }
        self.fringe.push_back(init);
        let mut steps: usize = 0;
        while self.fringe.len() > 0
            invariant
                inet == initial_network,
                istate == initial_state,
                istate_set == fact_set(initial_state),
                steps <= budget,
                forall|i: int| 0 <= i < self.fringe@.len()
                    ==> (#[trigger] self.fringe@[i]).network.wf(),
                forall|i: int| 0 <= i < self.fringe@.len()
                    ==> search_reachable(inet, istate_set, config_of(#[trigger] self.fringe@[i])),
                goal_start == (inet.network.node_set().len() == 0),
                dead_start == (budget >= 1 && inet.network.node_set().len() > 0
                    && stuck_at_start(inet, istate)),
                goal_start ==> (steps == 0 && self.fringe@.len() == 1
                    && self.fringe@[0].network == inet
                    && self.fringe@[0].sequence@.len() == 0),
                budget == 0 ==> (steps == 0 && self.fringe@.len() == 1
                    && self.fringe@[0].network == inet),
                dead_start ==> (self.fringe@.len() <= 1
                    && (self.fringe@.len() == 1 ==> (steps == 0
                        && self.fringe@[0].network == inet
                        && self.fringe@[0].state == istate))),
            decreases budget - steps,
        {
            let n = match self.fringe.pop_front() {
                Some(x) => x,
                None => {
                    proof {
                        assert(false);
                    }
                    return SearchResult::Unsolvable;
                },
            };
            let ghost cn = config_of(n);
            proof {
                assert(search_reachable(inet, istate_set, cn));
            }
            if n.is_goal() {
                proof {
                    assert(!dead_start);
                }
                let ghost plan = n.sequence.deep_view();
                let out = SearchResult::Solved(n.sequence);
                proof {
                    assert(out->Solved_0.deep_view() == plan);
                    assert(cn.1.network.node_set().len() == 0 && cn.2 == plan);
                    assert(plan_ok(inet, istate_set, plan));
                }
                return out;
            }
            proof {
                assert(!goal_start);
            }
            if steps >= budget {
                proof {
                    assert(!dead_start);
                }
                return SearchResult::BudgetExceeded;
            }
            let unconstrained = n.network.get_unconstrained_tasks();
            let mut u_a: Vec<u32> = Vec::new();
            let mut u_c: Vec<u32> = Vec::new();
            let mut pi: usize = 0;
            while pi < unconstrained.len()
                invariant
                    pi <= unconstrained@.len(),
                    n.network.wf(),
                    unconstrained@.to_set() == n.network.network.unconstrained_set(),
                    forall|j: int| 0 <= j < u_a@.len() ==>
                        n.network.network.unconstrained_set().contains(#[trigger] u_a@[j])
                        && n.network.task_map()[u_a@[j]].is_primitive_task(),
                    forall|j: int| 0 <= j < u_c@.len() ==>
                        n.network.network.unconstrained_set().contains(#[trigger] u_c@[j])
                        && !n.network.task_map()[u_c@[j]].is_primitive_task(),
                    u_c@.len() == 0 ==> forall|j: int| 0 <= j < pi ==>
                        n.network.task_map()[#[trigger] unconstrained@[j]].is_primitive_task(),
                decreases unconstrained@.len() - pi,
            {
                let t = unconstrained[pi];
                proof {
                    assert(unconstrained@.contains(t));
                    assert(unconstrained@.to_set().contains(t));
                    assert(n.network.network.unconstrained_set().contains(t));
                    assert(n.network.network.node_set().contains(t));
                    crate::network::lemma_map_of_dom(n.network.mappings@);
                    assert(n.network.task_map().contains_key(t));
                }
                match n.network.is_primitive(t) {
                    Ok(true) => {
                        u_a.push(t);
                    },
                    Ok(false) => {
                        u_c.push(t);
                    },
                    Err(_) => {
                        proof {
                            assert(false);
                        }
                    },
                }
                pi += 1;
            }
            if u_c.is_empty() {
                let mut ai: usize = 0;
                while ai < u_a.len()
                    invariant
                        ai <= u_a@.len(),
                        n.network.wf(),
                        cn == config_of(n),
                        search_reachable(inet, istate_set, cn),
                        forall|j: int| 0 <= j < u_a@.len() ==>
                            n.network.network.unconstrained_set().contains(#[trigger] u_a@[j])
                            && n.network.task_map()[u_a@[j]].is_primitive_task(),
                        forall|i: int| 0 <= i < self.fringe@.len()
                            ==> (#[trigger] self.fringe@[i]).network.wf(),
                        forall|i: int| 0 <= i < self.fringe@.len()
                            ==> search_reachable(inet, istate_set,
                                config_of(#[trigger] self.fringe@[i])),
                        dead_start ==> (stuck_at_start(n.network, n.state)
                            && self.fringe@.len() == 0),
                    decreases u_a@.len() - ai,
                {
                    let t = u_a[ai];
                    proof {
                        assert(n.network.network.unconstrained_set().contains(u_a@[ai as int]));
                        crate::network::lemma_map_of_dom(n.network.mappings@);
                        assert(n.network.task_map().contains_key(t));
                    }
                    match n.network.get_task(t) {
                        Some(task) => {
                            match task {
                                Task::Primitive(a) => {
                                    if a.is_applicable(&n.state) {
                                        proof {
                                            assert(!dead_start);
                                        }
                                        let new_network = n.network.apply_action(t);
                                        let new_state = a.transition(&n.state);
                                        let mut new_sequence = clone_strings(&n.sequence);
                                        let name = task.get_name();
                                        proof {
                                            assert(*task == n.network.task_map()[t]);
                                            assert(*task == Task::Primitive(*a));
                                            assert(name@ == a.name@);
                                        }
                                        new_sequence.push(name);
                                        let node = SearchNode::new(
                                            new_state,
                                            new_network,
                                            new_sequence,
                                        );
                                        proof {
                                            let c2 = config_of(node);
                                            assert(node.sequence.deep_view()
                                                =~= n.sequence.deep_view().push(a.name@));
                                            assert(n.network.network.node_set().contains(t));
                                            assert(config_step_primitive(cn, c2)) by {
                                                assert({
                                                    &&& cn.1.network.unconstrained_set()
                                                            .contains(t)
                                                    &&& cn.1.task_map()[t]
                                                            == Task::Primitive(*a)
                                                    &&& a.pre_set().subset_of(cn.0)
                                                    &&& c2.0 == cn.0.difference(a.del_set())
                                                            .union(a.add_set())
                                                    &&& c2.1.wf()
                                                    &&& c2.1.task_map()
                                                            == cn.1.task_map().remove(t)
                                                    &&& c2.1.network.node_set()
                                                            == cn.1.network.node_set().remove(t)
                                                    &&& c2.1.network.edge_set()
                                                            == cn.1.network.edges_avoiding(t)
                                                    &&& c2.2 == cn.2.push(a.name@)
                                                });
                                            }
                                            lemma_reachable_step(inet, istate_set, cn, c2);
                                        }
                                        self.fringe.push_back(node);
                                    }
                                },
                                Task::Compound(_) => {
                                    proof {
                                        assert(false);
                                    }
                                },
                            }
                        },
                        None => {
                            proof {
                                assert(false);
                            }
                        },
                    }
                    ai += 1;
                }
            } else {
                proof {
                    assert(u_c@.contains(u_c@[0]));
                    assert(!dead_start) by {
                        if dead_start {
                            assert(n.network.network.unconstrained_set().contains(u_c@[0]));
                        }
                    }
                }
                let t = u_c[0];
                proof {
                    crate::network::lemma_map_of_dom(n.network.mappings@);
                    assert(n.network.task_map().contains_key(t));
                }
                match n.network.get_task(t) {
                    Some(task) => {
                        match task {
                            Task::Compound(c) => {
                                let mut mi: usize = 0;
                                while mi < c.methods.len()
                                    invariant
                                        mi <= c.methods@.len(),
                                        n.network.wf(),
                                        cn == config_of(n),
                                        search_reachable(inet, istate_set, cn),
                                        n.network.network.unconstrained_set()
                                            .contains(u_c@[0]),
                                        u_c@.len() > 0,
                                        t == u_c@[0],
                                        n.network.task_map()[t] == Task::Compound(*c),
                                        forall|i: int| 0 <= i < self.fringe@.len()
                                            ==> (#[trigger] self.fringe@[i]).network.wf(),
                                        forall|i: int| 0 <= i < self.fringe@.len()
                                            ==> search_reachable(inet, istate_set,
                                                config_of(#[trigger] self.fringe@[i])),
                                        !dead_start,
                                        !goal_start,
                                    decreases c.methods@.len() - mi,
                                {
                                    let m = &c.methods[mi];
                                    if n.network.decompose_ids_bounded(m) {
                                        match n.network.decompose(t, m) {
                                            Ok(new_network) => {
                                                let node = SearchNode::new(
                                                    clone_strings(&n.state),
                                                    new_network,
                                                    clone_strings(&n.sequence),
                                                );
                                                proof {
                                                    let c2 = config_of(node);
                                                    assert(node.state@ == n.state@);
                                                    assert(node.state.deep_view()
                                                        =~= n.state.deep_view());
                                                    assert(node.sequence.deep_view()
                                                        =~= n.sequence.deep_view());
                                                    assert(c.methods@.contains(c.methods@[mi as int]));
                                                    assert(*m == c.methods@[mi as int]);
                                                    assert(c2.1 == new_network);
                                                    assert(exists|phi: Map<u32, u32>|
                                                        n.network.decompose_result_ok(
                                                            t, m.decomposition, phi, new_network));
                                                    assert(config_step_decompose(cn, c2)) by {
                                                        assert({
                                                            &&& cn.1.network
                                                                    .unconstrained_set()
                                                                    .contains(t)
                                                            &&& (cn.1.task_map()[t] matches
                                                                    Task::Compound(ct)
                                                                    && ct.methods@.contains(*m))
                                                            &&& c2.1.wf()
                                                            &&& (exists|phi: Map<u32, u32>|
                                                                    cn.1.decompose_result_ok(
                                                                        t,
                                                                        m.decomposition,
                                                                        phi,
                                                                        c2.1,
                                                                    ))
                                                            &&& c2.0 == cn.0
                                                            &&& c2.2 == cn.2
                                                        });
                                                    }
                                                    lemma_reachable_step(inet, istate_set, cn, c2);
                                                }
                                                self.fringe.push_back(node);
                                            },
                                            Err(_) => {},
                                        }
                                    }
                                    mi += 1;
                                }
                            },
                            Task::Primitive(_) => {
                                proof {
                                    assert(false);
                                }
                            },
                        }
                    },
                    None => {
                        proof {
                            assert(false);
                        }
                    },
                }
            }
            steps += 1;
        }
        proof {
            assert(!goal_start);
        }
        SearchResult::Unsolvable
    }
}

} // verus!
