//! The task network: a precedence graph over task ids plus a mapping
//! from each id to its task. Every operation returns a new network;
//! the task values themselves are shared by reference counting, so
//! many search branches reference one catalog without copying it.

use vstd::prelude::*;
use std::rc::Rc;
use crate::graph::Graph;
use crate::tasks::{Method, Task};

verus! {

broadcast use {
    vstd::seq_lib::group_seq_properties,
    vstd::seq_lib::seq_to_set_is_finite,
    vstd::set::group_set_axioms,
};

/// The task value a reference-counted handle denotes.
pub open spec fn task_of(r: Rc<Task>) -> Task {
    *r
}

/// The ids of an association list, in order.
pub open spec fn keys_of(pairs: Seq<(u32, Rc<Task>)>) -> Seq<u32> {
    pairs.map_values(|p: (u32, Rc<Task>)| p.0)
}

/// The finite map an association list denotes; a later entry wins
/// over an earlier one with the same id.
pub open spec fn map_of(pairs: Seq<(u32, Rc<Task>)>) -> Map<u32, Task>
    decreases pairs.len(),
{
    if pairs.len() == 0 {
        Map::empty()
    } else {
        map_of(pairs.drop_last()).insert(pairs.last().0, task_of(pairs.last().1))
    }
}

/// The domain of the denoted map is exactly the set of listed ids.
pub proof fn lemma_map_of_dom(pairs: Seq<(u32, Rc<Task>)>)
    ensures
        map_of(pairs).dom() == keys_of(pairs).to_set(),
    decreases pairs.len(),
{
    if pairs.len() == 0 {
        assert(map_of(pairs).dom() =~= keys_of(pairs).to_set());
    } else {
        lemma_map_of_dom(pairs.drop_last());
        assert(keys_of(pairs.drop_last()) =~= keys_of(pairs).drop_last());
        assert forall|k: u32| keys_of(pairs).to_set().contains(k) implies
            map_of(pairs).dom().contains(k) by {
            let j = choose|j: int| 0 <= j < keys_of(pairs).len() && keys_of(pairs)[j] == k;
            if j < pairs.len() - 1 {
                assert(keys_of(pairs).drop_last()[j] == k);
                assert(keys_of(pairs.drop_last()).contains(k));
            }
        }
        assert forall|k: u32| map_of(pairs).dom().contains(k) implies
            keys_of(pairs).to_set().contains(k) by {
            if k == pairs.last().0 {
                assert(keys_of(pairs)[pairs.len() - 1] == k);
                assert(keys_of(pairs).contains(k));
            } else {
                assert(keys_of(pairs.drop_last()).contains(k));
                let j = choose|j: int| 0 <= j < keys_of(pairs.drop_last()).len()
                    && keys_of(pairs.drop_last())[j] == k;
                assert(keys_of(pairs)[j] == k);
                assert(keys_of(pairs).contains(k));
            }
        }
        assert(map_of(pairs).dom() =~= keys_of(pairs).to_set());
    }
}

/// With distinct ids, the denoted map sends each listed id to the
/// task listed beside it.
pub proof fn lemma_map_of_index(pairs: Seq<(u32, Rc<Task>)>, k: int)
    requires
        0 <= k < pairs.len(),
        keys_of(pairs).no_duplicates(),
    ensures
        map_of(pairs).contains_key(pairs[k].0),
        map_of(pairs)[pairs[k].0] == task_of(pairs[k].1),
    decreases pairs.len(),
{
    if k == pairs.len() - 1 {
    } else {
        assert(keys_of(pairs.drop_last()) =~= keys_of(pairs).drop_last());
        assert(keys_of(pairs).drop_last().no_duplicates());
        lemma_map_of_index(pairs.drop_last(), k);
        assert(keys_of(pairs)[k] == pairs[k].0
            && keys_of(pairs)[pairs.len() - 1] == pairs.last().0);
        assert(pairs[k].0 != pairs.last().0);
        assert(pairs.drop_last()[k] == pairs[k]);
    }
}

/// The error values of network operations: a reference to an id the
/// network does not track, or a method whose decomposition fragment
/// is inconsistent with its own mapping.
#[derive(Debug, Clone, Copy, PartialEq, Eq, Structural)]
pub enum NetworkError {
    InvalidReference,
    MalformedDecomposition,
}

/// A task network: a precedence graph over task ids, and the task
/// each id stands for.
#[derive(Debug, PartialEq)]
pub struct HTN {
    pub network: Graph,
    pub mappings: Vec<(u32, Rc<Task>)>,
}

/// Scans an association list for an id.
fn pairs_contain_key(pairs: &Vec<(u32, Rc<Task>)>, id: u32) -> (b: bool)
    ensures
        b == keys_of(pairs@).contains(id),
{
    let mut i: usize = 0;
    while i < pairs.len()
        invariant
            i <= pairs@.len(),
            forall|j: int| 0 <= j < i ==> (#[trigger] pairs@[j]).0 != id,
        decreases pairs@.len() - i,
    {
        if pairs[i].0 == id {
            proof {
                assert(keys_of(pairs@)[i as int] == id);
                assert(keys_of(pairs@).contains(id));
            }
            return true;
        }
        i += 1;
    }
    proof {
        if keys_of(pairs@).contains(id) {
            let j = choose|j: int| 0 <= j < keys_of(pairs@).len() && keys_of(pairs@)[j] == id;
            assert(pairs@[j].0 == id);
        }
    }
    false
}

/// Copies an association list, leaving the entry for `id` out.
fn mappings_without(pairs: &Vec<(u32, Rc<Task>)>, id: u32) -> (out: Vec<(u32, Rc<Task>)>)
    requires
        keys_of(pairs@).no_duplicates(),
    ensures
        keys_of(out@).no_duplicates(),
        map_of(out@) == map_of(pairs@).remove(id),
        forall|k: u32| #![all_triggers] keys_of(out@).contains(k)
            == (keys_of(pairs@).contains(k) && k != id),
{
    let mut mp: Vec<(u32, Rc<Task>)> = Vec::new();
    let mut i: usize = 0;
    while i < pairs.len()
        invariant
            i <= pairs@.len(),
            keys_of(pairs@).no_duplicates(),
            keys_of(mp@).no_duplicates(),
            forall|k: u32| #![all_triggers] keys_of(mp@).contains(k) ==>
                (keys_of(pairs@).take(i as int).contains(k) && k != id),
            map_of(mp@) == map_of(pairs@.take(i as int)).remove(id),
        decreases pairs@.len() - i,
    {
        let ghost prev = mp@;
        let ghost ks = keys_of(pairs@);
        let key = pairs[i].0;
        proof {
            assert(ks[i as int] == key);
            assert forall|k: u32| #![all_triggers] ks.take(i + 1).contains(k) implies
                (ks.take(i as int).contains(k) || k == key) by {
                let j = choose|j: int| 0 <= j < i + 1 && #[trigger] ks.take(i + 1)[j] == k;
                if j < i {
                    assert(ks.take(i as int)[j] == k);
                }
            }
            assert forall|k: u32| ks.take(i as int).contains(k) implies
                #[trigger] ks.take(i + 1).contains(k) by {
                let j = choose|j: int| 0 <= j < i && #[trigger] ks.take(i as int)[j] == k;
                assert(ks.take(i + 1)[j] == k);
            }
            assert(ks.take(i + 1)[i as int] == key);
            assert(ks.take(i + 1).contains(key));
        }
        if key != id {
            mp.push((key, pairs[i].1.clone()));
            proof {
                assert(mp@.drop_last() =~= prev);
                assert(mp@.last().0 == key
                    && task_of(mp@.last().1) == task_of(pairs@[i as int].1));
                assert(keys_of(mp@) =~= keys_of(prev).push(key));
                assert(keys_of(mp@).drop_last() =~= keys_of(prev));
                assert forall|k: u32| #![all_triggers] keys_of(mp@).contains(k) implies
                    (ks.take(i + 1).contains(k) && k != id) by {
                    let j = choose|j: int| 0 <= j < keys_of(mp@).len() && keys_of(mp@)[j] == k;
                    if j < keys_of(mp@).len() - 1 {
                        assert(keys_of(prev)[j] == k);
                        assert(keys_of(prev).contains(k));
                    } else {
                        assert(k == key);
                    }
                }
                if keys_of(prev).contains(key) {
                    assert(ks.take(i as int).contains(key));
                    let j = choose|j: int| 0 <= j < i && #[trigger] ks.take(i as int)[j] == key;
                    assert(ks[j] == key && ks[i as int] == key);
                    assert(false);
                }
                assert(keys_of(mp@).no_duplicates());
            }
        }
        proof {
            assert(pairs@.take(i + 1).drop_last() =~= pairs@.take(i as int));
            assert(pairs@.take(i + 1).last() == pairs@[i as int]);
            assert(map_of(pairs@.take(i + 1))
                == map_of(pairs@.take(i as int))
                    .insert(pairs@[i as int].0, task_of(pairs@[i as int].1)));
            if key != id {
                assert(map_of(mp@)
                    == map_of(prev).insert(key, task_of(pairs@[i as int].1)));
                assert(map_of(pairs@.take(i as int)).remove(id)
                        .insert(key, task_of(pairs@[i as int].1))
                    =~= map_of(pairs@.take(i as int))
                        .insert(key, task_of(pairs@[i as int].1)).remove(id));
            } else {
                assert(map_of(pairs@.take(i as int))
                        .insert(id, task_of(pairs@[i as int].1)).remove(id)
                    =~= map_of(pairs@.take(i as int)).remove(id));
            }
        }
        i += 1;
    }
    proof {
        assert(pairs@.take(pairs@.len() as int) =~= pairs@);
        lemma_map_of_dom(pairs@);
        lemma_map_of_dom(mp@);
        assert forall|k: u32| #![all_triggers] keys_of(mp@).contains(k)
            == (keys_of(pairs@).contains(k) && k != id) by {
            assert(keys_of(mp@).to_set().contains(k)
                == map_of(pairs@).remove(id).dom().contains(k));
        }
    }
    mp
}

/// The association list with every entry whose id already occurred
/// earlier removed: the first entry for each id wins.
pub open spec fn first_entries(pairs: Seq<(u32, Rc<Task>)>) -> Seq<(u32, Rc<Task>)>
    decreases pairs.len(),
{
    if pairs.len() == 0 {
        Seq::empty()
    } else if keys_of(pairs.drop_last()).contains(pairs.last().0) {
        first_entries(pairs.drop_last())
    } else {
        first_entries(pairs.drop_last()).push(pairs.last())
    }
}

/// Keeping first entries keeps exactly the listed ids, each once,
/// and changes nothing when the ids were distinct to begin with.
pub proof fn lemma_first_entries_keys(pairs: Seq<(u32, Rc<Task>)>)
    ensures
        forall|k: u32| #![all_triggers] keys_of(first_entries(pairs)).contains(k)
            == keys_of(pairs).contains(k),
        keys_of(first_entries(pairs)).no_duplicates(),
        keys_of(pairs).no_duplicates() ==> first_entries(pairs) == pairs,
    decreases pairs.len(),
{
    if pairs.len() == 0 {
        assert(keys_of(pairs) =~= Seq::<u32>::empty());
        assert(first_entries(pairs) =~= Seq::<(u32, Rc<Task>)>::empty());
        assert(keys_of(first_entries(pairs)) =~= Seq::<u32>::empty());
    } else {
        let dl = pairs.drop_last();
        let p = pairs.last();
        lemma_first_entries_keys(dl);
        assert(keys_of(dl) =~= keys_of(pairs).drop_last());
        assert forall|k: u32| #[trigger] keys_of(pairs).contains(k) implies
            (keys_of(dl).contains(k) || k == p.0) by {
            let j = choose|j: int| 0 <= j < keys_of(pairs).len()
                && #[trigger] keys_of(pairs)[j] == k;
            if j < pairs.len() - 1 {
                assert(keys_of(dl)[j] == k);
            }
        }
        assert forall|k: u32| keys_of(dl).contains(k) implies
            #[trigger] keys_of(pairs).contains(k) by {
            let j = choose|j: int| 0 <= j < keys_of(dl).len() && #[trigger] keys_of(dl)[j] == k;
            assert(keys_of(pairs)[j] == k);
        }
        assert(keys_of(pairs)[pairs.len() - 1] == p.0);
        assert(keys_of(pairs).contains(p.0));
        if keys_of(dl).contains(p.0) {
            assert(first_entries(pairs) == first_entries(dl));
            if keys_of(pairs).no_duplicates() {
                let j = choose|j: int| 0 <= j < keys_of(dl).len()
                    && #[trigger] keys_of(dl)[j] == p.0;
                assert(keys_of(pairs)[j] == p.0);
                assert(false);
            }
        } else {
            assert(first_entries(pairs) == first_entries(dl).push(p));
            assert(keys_of(first_entries(pairs)) =~= keys_of(first_entries(dl)).push(p.0));
            assert(keys_of(first_entries(pairs)).drop_last() =~= keys_of(first_entries(dl)));
            assert(!keys_of(first_entries(dl)).contains(p.0));
            assert(keys_of(first_entries(pairs)).no_duplicates());
            if keys_of(pairs).no_duplicates() {
                assert forall|a: int, b: int| 0 <= a < keys_of(dl).len()
                    && 0 <= b < keys_of(dl).len() && a != b implies
                    (#[trigger] keys_of(dl)[a]) != (#[trigger] keys_of(dl)[b]) by {
                    assert(keys_of(pairs)[a] == keys_of(dl)[a]
                        && keys_of(pairs)[b] == keys_of(dl)[b]);
                }
                assert(keys_of(dl).no_duplicates());
                assert(first_entries(dl) == dl);
                assert(dl.push(p) =~= pairs);
            }
        }
    }
}

/// Keeping first entries sends each id, at its first occurrence, to
/// the task listed there.
pub proof fn lemma_first_entries_map(pairs: Seq<(u32, Rc<Task>)>)
    ensures
        forall|j: int| #![trigger pairs[j]] 0 <= j < pairs.len()
            && !keys_of(pairs).take(j).contains(pairs[j].0)
            ==> map_of(first_entries(pairs)).contains_key(pairs[j].0)
                && map_of(first_entries(pairs))[pairs[j].0] == task_of(pairs[j].1),
    decreases pairs.len(),
{
    if pairs.len() == 0 {
    } else {
        let dl = pairs.drop_last();
        let p = pairs.last();
        lemma_first_entries_map(dl);
        lemma_first_entries_keys(dl);
        assert(keys_of(dl) =~= keys_of(pairs).drop_last());
        assert forall|j: int| 0 <= j <= dl.len() implies
            #[trigger] keys_of(pairs).take(j) =~= keys_of(dl).take(j) by {
            assert forall|l: int| 0 <= l < j implies
                #[trigger] keys_of(pairs).take(j)[l] == keys_of(dl).take(j)[l] by {
                assert(keys_of(pairs)[l] == pairs[l].0 && keys_of(dl)[l] == dl[l].0);
                assert(dl[l] == pairs[l]);
            }
        }
        if keys_of(dl).contains(p.0) {
            assert(first_entries(pairs) == first_entries(dl));
            assert forall|j: int| #![trigger pairs[j]] 0 <= j < pairs.len()
                && !keys_of(pairs).take(j).contains(pairs[j].0) implies
                map_of(first_entries(pairs)).contains_key(pairs[j].0)
                    && map_of(first_entries(pairs))[pairs[j].0] == task_of(pairs[j].1) by {
                if j < dl.len() {
                    assert(keys_of(pairs).take(j) =~= keys_of(dl).take(j));
                    assert(dl[j] == pairs[j]);
                } else {
                    assert(keys_of(pairs).take(j) =~= keys_of(dl));
                    assert(false);
                }
            }
        } else {
            let fe = first_entries(pairs);
            let fed = first_entries(dl);
            assert(fe == fed.push(p));
            assert(fe.drop_last() =~= fed);
            assert(fe.last() == p);
            assert(map_of(fe) == map_of(fed).insert(p.0, task_of(p.1)));
            lemma_map_of_dom(fed);
            assert forall|j: int| #![trigger pairs[j]] 0 <= j < pairs.len()
                && !keys_of(pairs).take(j).contains(pairs[j].0) implies
                map_of(fe).contains_key(pairs[j].0)
                    && map_of(fe)[pairs[j].0] == task_of(pairs[j].1) by {
                if j < dl.len() {
                    assert(keys_of(pairs).take(j) =~= keys_of(dl).take(j));
                    assert(dl[j] == pairs[j]);
                    let kj = pairs[j].0;
                    assert(map_of(fed).contains_key(kj)
                        && map_of(fed)[kj] == task_of(pairs[j].1));
                    assert(keys_of(dl)[j] == kj);
                    assert(keys_of(dl).contains(kj));
                    assert(kj != p.0);
                } else {
                    assert(pairs[j] == p);
                    assert(map_of(fe)[p.0] == task_of(p.1));
                }
            }
        }
    }
}

impl HTN {
    /// The map from task id to task.
    pub open spec fn task_map(self) -> Map<u32, Task> {
        map_of(self.mappings@)
    }

    /// The graph and the mapping agree: ids are listed once, every
    /// edge endpoint is a node, and the mapped ids are exactly the
    /// nodes.
    pub open spec fn wf(self) -> bool {
        &&& self.network.wf()
        &&& self.network.closed()
        &&& keys_of(self.mappings@).no_duplicates()
        &&& self.task_map().dom() == self.network.node_set()
    }

    /// Builds a network from a task-id list, ordering pairs, and an
    /// id-to-task association list. Duplicate ids, pairs and mapping
    /// entries are collapsed, the first entry winning.
    pub fn new(
        tasks: Vec<u32>,
        orderings: Vec<(u32, u32)>,
        mappings: Vec<(u32, Rc<Task>)>,
    ) -> (r: HTN)
        ensures
            r.network.wf(),
            r.network.node_set() == tasks@.to_set(),
            r.network.edge_set() == orderings@.to_set(),
            keys_of(r.mappings@).no_duplicates(),
            keys_of(mappings@).no_duplicates() ==> r.mappings@ == mappings@,
            forall|k: u32| #![all_triggers] keys_of(r.mappings@).contains(k)
                == keys_of(mappings@).contains(k),
            forall|j: int| #![trigger mappings@[j]] 0 <= j < mappings@.len()
                && !keys_of(mappings@).take(j).contains(mappings@[j].0)
                ==> r.task_map().contains_key(mappings@[j].0)
                    && r.task_map()[mappings@[j].0] == task_of(mappings@[j].1),
    {
        let network = Graph::new(tasks, orderings);
        let mut mp: Vec<(u32, Rc<Task>)> = Vec::new();
        let mut i: usize = 0;
        while i < mappings.len()
            invariant
                i <= mappings@.len(),
                mp@ == first_entries(mappings@.take(i as int)),
            decreases mappings@.len() - i,
        {
            let ghost prev = mp@;
            let key = mappings[i].0;
            proof {
                lemma_first_entries_keys(mappings@.take(i as int));
                assert(mappings@.take(i + 1).drop_last() =~= mappings@.take(i as int));
                assert(mappings@.take(i + 1).last() == mappings@[i as int]);
            }
            if !pairs_contain_key(&mp, key) {
                mp.push((key, mappings[i].1.clone()));
                proof {
                    assert(!keys_of(mappings@.take(i as int)).contains(key));
                    assert(first_entries(mappings@.take(i + 1))
                        == first_entries(mappings@.take(i as int)).push(mappings@[i as int]));
                    assert(mp@.drop_last() =~= prev);
                    assert(mp@.last().0 == key
                        && task_of(mp@.last().1) == task_of(mappings@[i as int].1));
                    assert(mp@.last() == mappings@[i as int]);
                    assert(mp@ =~= first_entries(mappings@.take(i + 1)));
                }
            } else {
                proof {
                    assert(keys_of(mappings@.take(i as int)).contains(key));
                    assert(first_entries(mappings@.take(i + 1))
                        == first_entries(mappings@.take(i as int)));
                }
            }
            i += 1;
        }
        proof {
            assert(mappings@.take(mappings@.len() as int) =~= mappings@);
            assert(mp@ == first_entries(mappings@));
            lemma_first_entries_keys(mappings@);
            lemma_first_entries_map(mappings@);
        }
        HTN { network, mappings: mp }
    }

    /// The number of tasks in the network.
    pub fn count_tasks(&self) -> (n: usize)
        requires
            self.wf(),
        ensures
            n == self.network.node_set().len(),
            n == self.task_map().dom().len(),
    {
        proof {
            lemma_map_of_dom(self.mappings@);
        }
        self.network.count_nodes()
    }

    /// The task mapped to `id`, or `None` when the network does not
    /// track `id`.
    pub fn get_task(&self, id: u32) -> (r: Option<&Task>)
        requires
            keys_of(self.mappings@).no_duplicates(),
        ensures
            match r {
                Some(t) => self.task_map().contains_key(id) && *t == self.task_map()[id],
                None => !self.task_map().contains_key(id),
            },
    {
        proof {
            lemma_map_of_dom(self.mappings@);
        }
        let mut i: usize = 0;
        while i < self.mappings.len()
            invariant
                i <= self.mappings@.len(),
                keys_of(self.mappings@).no_duplicates(),
                forall|j: int| 0 <= j < i ==> (#[trigger] self.mappings@[j]).0 != id,
            decreases self.mappings@.len() - i,
        {
            if self.mappings[i].0 == id {
                proof {
                    lemma_map_of_index(self.mappings@, i as int);
                }
                return Some(&*self.mappings[i].1);
            }
            i += 1;
        }
        proof {
            if self.task_map().contains_key(id) {
                assert(keys_of(self.mappings@).to_set().contains(id));
                let j = choose|j: int| 0 <= j < keys_of(self.mappings@).len()
                    && keys_of(self.mappings@)[j] == id;
                assert(self.mappings@[j].0 == id);
            }
        }
        None
    }

    /// The ids of the tasks that nothing constrains: the ready set.
    pub fn get_unconstrained_tasks(&self) -> (r: Vec<u32>)
        requires
            self.wf(),
        ensures
            r@.no_duplicates(),
            r@.to_set() == self.network.unconstrained_set(),
    {
        self.network.get_unconstrained_nodes()
    }

    /// The ids of the tasks that must precede `id`.
    pub fn get_incoming_edges(&self, id: u32) -> (r: Vec<u32>)
        requires
            self.wf(),
        ensures
            r@.no_duplicates(),
            r@.to_set() == self.network.incoming_set(id),
    {
        self.network.get_incoming_edges(id)
    }

    /// Whether the task at `id` is primitive; an invalid-reference
    /// error when the network does not track `id`.
    pub fn is_primitive(&self, id: u32) -> (r: Result<bool, NetworkError>)
        requires
            self.wf(),
        ensures
            r matches Ok(b) ==> self.task_map().contains_key(id)
                && b == self.task_map()[id].is_primitive_task(),
            r is Err <==> !self.task_map().contains_key(id),
            r matches Err(e) ==> e == NetworkError::InvalidReference,
    {
        match self.get_task(id) {
            Some(t) => {
                match t {
                    Task::Primitive(_) => Ok(true),
                    Task::Compound(_) => Ok(false),
                }
            },
            None => Err(NetworkError::InvalidReference),
        }
    }

    /// Returns a new network with `id` removed from both the graph
    /// and the mapping; an unchanged copy when `id` is absent.
    pub fn apply_action(&self, id: u32) -> (r: HTN)
        requires
            self.wf(),
        ensures
            r.wf(),
            r.task_map() == self.task_map().remove(id),
            self.network.node_set().contains(id) ==> {
                &&& r.network.node_set() == self.network.node_set().remove(id)
                &&& r.network.edge_set() == self.network.edges_avoiding(id)
            },
            !self.network.node_set().contains(id) ==> {
                &&& r.network.node_set() == self.network.node_set()
                &&& r.network.edge_set() == self.network.edge_set()
            },
    {
        let network = self.network.remove_node(id);
        let mp = mappings_without(&self.mappings, id);
        proof {
            lemma_map_of_dom(self.mappings@);
            lemma_map_of_dom(mp@);
            assert(map_of(mp@).dom() =~= network.node_set());
        }
        HTN { network, mappings: mp }
    }
}

/// The ids of a rename table, in order.
pub open spec fn ren_keys(pairs: Seq<(u32, u32)>) -> Seq<u32> {
    pairs.map_values(|p: (u32, u32)| p.0)
}

/// The finite map a rename table denotes.
pub open spec fn phi_of(pairs: Seq<(u32, u32)>) -> Map<u32, u32>
    decreases pairs.len(),
{
    if pairs.len() == 0 {
        Map::empty()
    } else {
        phi_of(pairs.drop_last()).insert(pairs.last().0, pairs.last().1)
    }
}

/// The domain of the denoted rename map is the set of listed ids.
pub proof fn lemma_phi_of_dom(pairs: Seq<(u32, u32)>)
    ensures
        phi_of(pairs).dom() == ren_keys(pairs).to_set(),
    decreases pairs.len(),
{
    if pairs.len() == 0 {
        assert(phi_of(pairs).dom() =~= ren_keys(pairs).to_set());
    } else {
        lemma_phi_of_dom(pairs.drop_last());
        assert(ren_keys(pairs.drop_last()) =~= ren_keys(pairs).drop_last());
        assert forall|k: u32| ren_keys(pairs).to_set().contains(k) implies
            phi_of(pairs).dom().contains(k) by {
            let j = choose|j: int| 0 <= j < ren_keys(pairs).len() && ren_keys(pairs)[j] == k;
            if j < pairs.len() - 1 {
                assert(ren_keys(pairs).drop_last()[j] == k);
                assert(ren_keys(pairs.drop_last()).contains(k));
            }
        }
        assert forall|k: u32| phi_of(pairs).dom().contains(k) implies
            ren_keys(pairs).to_set().contains(k) by {
            if k == pairs.last().0 {
                assert(ren_keys(pairs)[pairs.len() - 1] == k);
                assert(ren_keys(pairs).contains(k));
            } else {
                assert(ren_keys(pairs.drop_last()).contains(k));
                let j = choose|j: int| 0 <= j < ren_keys(pairs.drop_last()).len()
                    && ren_keys(pairs.drop_last())[j] == k;
                assert(ren_keys(pairs)[j] == k);
                assert(ren_keys(pairs).contains(k));
            }
        }
        assert(phi_of(pairs).dom() =~= ren_keys(pairs).to_set());
    }
}

/// With distinct ids, the denoted rename map sends each listed id to
/// the value listed beside it.
pub proof fn lemma_phi_of_index(pairs: Seq<(u32, u32)>, k: int)
    requires
        0 <= k < pairs.len(),
        ren_keys(pairs).no_duplicates(),
    ensures
        phi_of(pairs).contains_key(pairs[k].0),
        phi_of(pairs)[pairs[k].0] == pairs[k].1,
    decreases pairs.len(),
{
    if k == pairs.len() - 1 {
    } else {
        assert(ren_keys(pairs.drop_last()) =~= ren_keys(pairs).drop_last());
        assert(ren_keys(pairs).drop_last().no_duplicates());
        lemma_phi_of_index(pairs.drop_last(), k);
        assert(ren_keys(pairs)[k] == pairs[k].0
            && ren_keys(pairs)[pairs.len() - 1] == pairs.last().0);
        assert(pairs.drop_last()[k] == pairs[k]);
    }
}

/// A valid id-collision resolution: `phi` renames exactly the ids of
/// the fragment; an id that does not collide with the host keeps its
/// value; a colliding id is sent strictly above every id of the host
/// and of the fragment; and no two ids are sent to the same value.
pub open spec fn rename_ok(phi: Map<u32, u32>, sub: Set<u32>, host: Set<u32>) -> bool {
    &&& phi.dom() == sub
    &&& forall|x: u32| sub.contains(x) && !host.contains(x) ==> #[trigger] phi[x] == x
    &&& forall|x: u32, y: u32|
            #![trigger phi[x], host.contains(y)]
            #![trigger phi[x], sub.contains(y)]
            sub.contains(x) && host.contains(x) && (host.contains(y) || sub.contains(y))
                ==> phi[x] > y
    &&& forall|a: u32, b: u32| sub.contains(a) && sub.contains(b)
            && #[trigger] phi[a] == #[trigger] phi[b] ==> a == b
}

/// The set `s` renamed through `phi`.
pub open spec fn image_set(phi: Map<u32, u32>, s: Set<u32>) -> Set<u32> {
    Set::new(|y: u32| exists|x: u32| s.contains(x) && #[trigger] phi[x] == y)
}

/// The edge set `edges` with both endpoints renamed through `phi`.
pub open spec fn renamed_edge_set(phi: Map<u32, u32>, edges: Set<(u32, u32)>) -> Set<(u32, u32)> {
    Set::new(|e: (u32, u32)| exists|f: (u32, u32)|
        #[trigger] edges.contains(f) && phi[f.0] == e.0 && phi[f.1] == e.1)
}

/// A method's decomposition fragment is consistent: its edges stay
/// inside its nodes, and its mapping lists exactly its nodes.
pub open spec fn fragment_ok(d: HTN) -> bool {
    &&& d.network.closed()
    &&& keys_of(d.mappings@).to_set() == d.network.node_set()
}

/// Looks an id up in a rename table.
fn rename_lookup(ren: &Vec<(u32, u32)>, x: u32) -> (y: u32)
    requires
        ren_keys(ren@).no_duplicates(),
        ren_keys(ren@).contains(x),
    ensures
        phi_of(ren@).contains_key(x),
        y == phi_of(ren@)[x],
{
    let mut i: usize = 0;
    while i < ren.len()
        invariant
            i <= ren@.len(),
            ren_keys(ren@).no_duplicates(),
            ren_keys(ren@).contains(x),
            forall|j: int| 0 <= j < i ==> (#[trigger] ren@[j]).0 != x,
        decreases ren@.len() - i,
    {
        if ren[i].0 == x {
            proof {
                lemma_phi_of_index(ren@, i as int);
            }
            return ren[i].1;
        }
        i += 1;
    }
    proof {
        let j = choose|j: int| 0 <= j < ren_keys(ren@).len() && ren_keys(ren@)[j] == x;
        assert(ren@[j].0 == x);
        assert(false);
    }
    0
}

/// Builds the id-collision resolution table for a fragment whose
/// (distinct) ids are listed in `sub`: an id also present in `host`
/// is assigned the next fresh value starting at `start`; any other id
/// keeps its value.
fn build_rename(sub: &Vec<u32>, host: &Vec<u32>, start: u32) -> (ren: Vec<(u32, u32)>)
    requires
        sub@.no_duplicates(),
        forall|j: int| 0 <= j < sub@.len() ==> (#[trigger] sub@[j]) < start,
        forall|j: int| 0 <= j < host@.len() ==> (#[trigger] host@[j]) < start,
        start as int + sub@.len() <= u32::MAX as int,
    ensures
        ren@.len() == sub@.len(),
        forall|j: int| 0 <= j < ren@.len() ==> (#[trigger] ren@[j]).0 == sub@[j],
        ren_keys(ren@).no_duplicates(),
        rename_ok(phi_of(ren@), sub@.to_set(), host@.to_set()),
{
    let mut ren: Vec<(u32, u32)> = Vec::new();
    let mut next: u32 = start;
    let mut i: usize = 0;
    while i < sub.len()
        invariant
            i <= sub@.len(),
            sub@.no_duplicates(),
            forall|j: int| 0 <= j < sub@.len() ==> (#[trigger] sub@[j]) < start,
            forall|j: int| 0 <= j < host@.len() ==> (#[trigger] host@[j]) < start,
            start as int + sub@.len() <= u32::MAX as int,
            start <= next,
            next as int <= start as int + i,
            ren@.len() == i,
            forall|j: int| 0 <= j < i ==> (#[trigger] ren@[j]).0 == sub@[j],
            forall|j: int| 0 <= j < i ==> ((#[trigger] ren@[j]).1 == ren@[j].0
                || (start <= ren@[j].1 < next)),
            forall|j: int| 0 <= j < i ==>
                (host@.contains((#[trigger] ren@[j]).0) <==> start <= ren@[j].1),
            forall|j: int, l: int| 0 <= j < i && 0 <= l < i && j != l
                ==> (#[trigger] ren@[j]).1 != (#[trigger] ren@[l]).1,
        decreases sub@.len() - i,
    {
        let x = sub[i];
        let ghost prev = ren@;
        if crate::graph::contains_id(host, x) {
            ren.push((x, next));
            next = next + 1;
        } else {
            ren.push((x, x));
        }
        proof {
            assert(ren@.drop_last() =~= prev);
            assert forall|j: int, l: int| 0 <= j < i + 1 && 0 <= l < i + 1 && j != l implies
                (#[trigger] ren@[j]).1 != (#[trigger] ren@[l]).1 by {
                if j < i && l < i {
                } else {
                    let (a, b) = if j == i { (l, j) } else { (j, l) };
                    assert(ren@[b] == ren@[i as int]);
                    if host@.contains(ren@[a].0) {
                        if host@.contains(ren@[b].0) {
                            assert(ren@[a].1 < next || ren@[b].1 != ren@[a].1);
                        } else {
                            assert(ren@[b].1 == ren@[b].0);
                            assert(ren@[b].1 < start && start <= ren@[a].1);
                        }
                    } else {
                        assert(ren@[a].1 == ren@[a].0);
                        if host@.contains(ren@[b].0) {
                            assert(start <= ren@[b].1);
                            assert(ren@[a].1 < start);
                        } else {
                            assert(ren@[b].1 == ren@[b].0);
                            assert(sub@[a] != sub@[b]);
                        }
                    }
                }
            }
        }
        i += 1;
    }
    proof {
        assert(ren_keys(ren@) =~= sub@);
        lemma_phi_of_dom(ren@);
        let phi = phi_of(ren@);
        assert(phi.dom() == sub@.to_set());
        assert forall|j: int| 0 <= j < ren@.len() implies
            phi.contains_key(ren@[j].0) && phi[(#[trigger] ren@[j]).0] == ren@[j].1 by {
            lemma_phi_of_index(ren@, j);
        }
        assert forall|x: u32| sub@.to_set().contains(x) && !host@.to_set().contains(x) implies
            #[trigger] phi[x] == x by {
            let j = choose|j: int| 0 <= j < sub@.len() && sub@[j] == x;
            assert(ren@[j].0 == x);
            if start <= ren@[j].1 {
                assert(host@.contains(x));
            }
            assert(phi[x] == ren@[j].1);
        }
        assert forall|x: u32, y: u32|
            #![trigger phi[x], host@.to_set().contains(y)]
            #![trigger phi[x], sub@.to_set().contains(y)]
            sub@.to_set().contains(x) && host@.to_set().contains(x)
                && (host@.to_set().contains(y) || sub@.to_set().contains(y)) implies
            phi[x] > y by {
            let j = choose|j: int| 0 <= j < sub@.len() && sub@[j] == x;
            assert(ren@[j].0 == x);
            assert(host@.contains(x));
            assert(start <= ren@[j].1);
            assert(phi[x] == ren@[j].1);
            if host@.to_set().contains(y) {
                let l = choose|l: int| 0 <= l < host@.len() && host@[l] == y;
                assert(y < start);
            } else {
                let l = choose|l: int| 0 <= l < sub@.len() && sub@[l] == y;
                assert(y < start);
            }
        }
        assert forall|a: u32, b: u32| sub@.to_set().contains(a) && sub@.to_set().contains(b)
            && #[trigger] phi[a] == #[trigger] phi[b] implies a == b by {
            let j = choose|j: int| 0 <= j < sub@.len() && sub@[j] == a;
            let l = choose|l: int| 0 <= l < sub@.len() && sub@[l] == b;
            assert(ren@[j].0 == a && ren@[l].0 == b);
            assert(phi[a] == ren@[j].1 && phi[b] == ren@[l].1);
            if j != l {
                assert(ren@[j].1 != ren@[l].1);
            }
        }
    }
    ren
}

/// The size of a union of two disjoint finite sets is the sum of
/// their sizes.
proof fn lemma_len_disjoint_union(s1: Set<u32>, s2: Set<u32>)
    requires
        s1.finite(),
        s2.finite(),
        s1.disjoint(s2),
    ensures
        s1.union(s2).finite(),
        s1.union(s2).len() == s1.len() + s2.len(),
    decreases s1.len(),
{
    if s1.is_empty() {
        assert(s1.union(s2) =~= s2);
        assert(s1.len() == 0);
    } else {
        let a = s1.choose();
        assert(s1.contains(a));
        assert(s1.remove(a).disjoint(s2));
        lemma_len_disjoint_union(s1.remove(a), s2);
        assert(s1.remove(a).union(s2) =~= s1.union(s2).remove(a));
        assert(s1.union(s2).contains(a));
        assert(s1.union(s2) =~= s1.union(s2).remove(a).insert(a));
    }
}

/// An association list split in two denotes the map of the first
/// part, overridden by the map of the second.
pub proof fn lemma_map_of_concat(a: Seq<(u32, Rc<Task>)>, b: Seq<(u32, Rc<Task>)>)
    ensures
        map_of(a + b) == map_of(a).union_prefer_right(map_of(b)),
    decreases b.len(),
{
    if b.len() == 0 {
        assert(a + b =~= a);
        assert(map_of(a).union_prefer_right(map_of(b)) =~= map_of(a));
    } else {
        lemma_map_of_concat(a, b.drop_last());
        assert((a + b).drop_last() =~= a + b.drop_last());
        assert((a + b).len() > 0);
        assert((a + b).last() == b.last());
        assert(map_of(a + b)
            == map_of(a + b.drop_last()).insert(b.last().0, task_of(b.last().1)));
        assert(map_of(a).union_prefer_right(map_of(b.drop_last()))
                .insert(b.last().0, task_of(b.last().1))
            =~= map_of(a).union_prefer_right(
                map_of(b.drop_last()).insert(b.last().0, task_of(b.last().1))));
    }
}

/// Copies an association list with every id renamed through the
/// table, keeping the first occurrence of each id only.
fn renamed_mappings(pairs: &Vec<(u32, Rc<Task>)>, ren: &Vec<(u32, u32)>) -> (out: Vec<(u32, Rc<Task>)>)
    requires
        ren_keys(ren@).no_duplicates(),
        forall|k: u32| keys_of(pairs@).contains(k) ==> ren_keys(ren@).contains(k),
        forall|a: u32, b: u32| ren_keys(ren@).contains(a) && ren_keys(ren@).contains(b)
            && #[trigger] phi_of(ren@)[a] == #[trigger] phi_of(ren@)[b] ==> a == b,
    ensures
        keys_of(out@).no_duplicates(),
        keys_of(out@).to_set() == image_set(phi_of(ren@), keys_of(pairs@).to_set()),
        keys_of(pairs@).no_duplicates() ==> {
            &&& out@.len() == pairs@.len()
            &&& forall|j: int| 0 <= j < pairs@.len() ==>
                (#[trigger] out@[j]).0 == phi_of(ren@)[pairs@[j].0]
                    && task_of(out@[j].1) == task_of(pairs@[j].1)
        },
{
    let ghost phi = phi_of(ren@);
    let mut out: Vec<(u32, Rc<Task>)> = Vec::new();
    let mut orig: Vec<u32> = Vec::new();
    let mut i: usize = 0;
    while i < pairs.len()
        invariant
            i <= pairs@.len(),
            phi == phi_of(ren@),
            ren_keys(ren@).no_duplicates(),
            forall|k: u32| keys_of(pairs@).contains(k) ==> ren_keys(ren@).contains(k),
            forall|a: u32, b: u32| ren_keys(ren@).contains(a) && ren_keys(ren@).contains(b)
                && #[trigger] phi[a] == #[trigger] phi[b] ==> a == b,
            out@.len() == orig@.len(),
            orig@.no_duplicates(),
            forall|j: int| 0 <= j < out@.len() ==> ren_keys(ren@).contains(#[trigger] orig@[j]),
            forall|j: int| 0 <= j < out@.len() ==> (#[trigger] out@[j]).0 == phi[orig@[j]],
            forall|j: int| 0 <= j < out@.len() ==> exists|l: int| 0 <= l < i
                && (#[trigger] orig@[j]) == pairs@[l].0
                && task_of(out@[j].1) == task_of(pairs@[l].1),
            forall|k: u32| #![all_triggers] orig@.contains(k)
                == keys_of(pairs@).take(i as int).contains(k),
            keys_of(pairs@).no_duplicates() ==> (out@.len() == i
                && forall|j: int| 0 <= j < i ==> (#[trigger] orig@[j]) == pairs@[j].0
                    && task_of(out@[j].1) == task_of(pairs@[j].1)),
        decreases pairs@.len() - i,
    {
        let key = pairs[i].0;
        let ghost ks = keys_of(pairs@);
        proof {
            assert(ks[i as int] == key);
            assert(ks.contains(key));
            assert forall|k: u32| #![all_triggers] ks.take(i + 1).contains(k) implies
                (ks.take(i as int).contains(k) || k == key) by {
                let j = choose|j: int| 0 <= j < i + 1 && #[trigger] ks.take(i + 1)[j] == k;
                if j < i {
                    assert(ks.take(i as int)[j] == k);
                }
            }
            assert forall|k: u32| ks.take(i as int).contains(k) implies
                #[trigger] ks.take(i + 1).contains(k) by {
                let j = choose|j: int| 0 <= j < i && #[trigger] ks.take(i as int)[j] == k;
                assert(ks.take(i + 1)[j] == k);
            }
            assert(ks.take(i + 1)[i as int] == key);
            assert(ks.take(i + 1).contains(key));
        }
        if !crate::graph::contains_id(&orig, key) {
            let newkey = rename_lookup(ren, key);
            let ghost prev_out = out@;
            let ghost prev_orig = orig@;
            out.push((newkey, pairs[i].1.clone()));
            orig.push(key);
            proof {
                assert(orig@.drop_last() =~= prev_orig);
                assert(orig@.no_duplicates());
                assert(out@.len() == orig@.len());
                assert(out@[out@.len() - 1].0 == phi[key]);
                assert(task_of(out@[out@.len() - 1].1) == task_of(pairs@[i as int].1));
                assert forall|j: int| 0 <= j < out@.len() implies exists|l: int| 0 <= l < i + 1
                    && (#[trigger] orig@[j]) == pairs@[l].0
                    && task_of(out@[j].1) == task_of(pairs@[l].1) by {
                    if j < out@.len() - 1 {
                        let l = choose|l: int| 0 <= l < i
                            && (#[trigger] prev_orig[j]) == pairs@[l].0
                            && task_of(prev_out[j].1) == task_of(pairs@[l].1);
                        assert(0 <= l < i + 1 && orig@[j] == pairs@[l].0
                            && task_of(out@[j].1) == task_of(pairs@[l].1));
                    } else {
                        assert(0 <= i < i + 1 && orig@[j] == pairs@[i as int].0
                            && task_of(out@[j].1) == task_of(pairs@[i as int].1));
                    }
                }
            }
        } else {
            proof {
                if ks.no_duplicates() {
                    assert(ks.take(i as int).contains(key));
                    let j = choose|j: int| 0 <= j < i && #[trigger] ks.take(i as int)[j] == key;
                    assert(ks[j] == key && ks[i as int] == key);
                    assert(false);
                }
            }
        }
        i += 1;
    }
    proof {
        let ks = keys_of(pairs@);
        assert(ks.take(ks.len() as int) =~= ks);
        assert(ks.len() == pairs@.len());
        assert forall|k: u32| #![all_triggers] orig@.contains(k) == ks.contains(k) by {
            assert(orig@.contains(k) == ks.take(ks.len() as int).contains(k));
        }
        assert forall|j: int, l: int| 0 <= j < keys_of(out@).len() && 0 <= l < keys_of(out@).len()
            && j != l implies (#[trigger] keys_of(out@)[j]) != (#[trigger] keys_of(out@)[l]) by {
            assert(keys_of(out@)[j] == out@[j].0 && keys_of(out@)[l] == out@[l].0);
            assert(out@[j].0 == phi[orig@[j]] && out@[l].0 == phi[orig@[l]]);
            assert(orig@[j] != orig@[l]);
            if phi[orig@[j]] == phi[orig@[l]] {
                assert(false);
            }
        }
        assert(keys_of(out@).no_duplicates());
        assert forall|y: u32| keys_of(out@).to_set().contains(y) <==>
            #[trigger] image_set(phi, ks.to_set()).contains(y) by {
            if keys_of(out@).to_set().contains(y) {
                let j = choose|j: int| 0 <= j < keys_of(out@).len() && keys_of(out@)[j] == y;
                assert(out@[j].0 == y);
                assert(phi[orig@[j]] == y);
                assert(orig@.contains(orig@[j]));
                assert(ks.contains(orig@[j]));
                assert(ks.to_set().contains(orig@[j]) && phi[orig@[j]] == y);
            }
            if image_set(phi, ks.to_set()).contains(y) {
                let x = choose|x: u32| ks.to_set().contains(x) && #[trigger] phi[x] == y;
                assert(orig@.contains(x));
                let j = choose|j: int| 0 <= j < orig@.len() && orig@[j] == x;
                assert(out@[j].0 == phi[x]);
                assert(keys_of(out@)[j] == y);
                assert(keys_of(out@).contains(y));
            }
        }
        assert(keys_of(out@).to_set() =~= image_set(phi, ks.to_set()));
    }
    out
}

/// Checks that a decomposition fragment is consistent: its edges
/// stay inside its nodes, and its mapping lists exactly its nodes.
fn check_fragment(d: &HTN) -> (b: bool)
    ensures
        b == fragment_ok(*d),
{
    let mut ce: usize = 0;
    while ce < d.network.edges.len()
        invariant
            ce <= d.network.edges@.len(),
            forall|l: int| 0 <= l < ce ==>
                d.network.nodes@.contains((#[trigger] d.network.edges@[l]).0)
                && d.network.nodes@.contains(d.network.edges@[l].1),
        decreases d.network.edges@.len() - ce,
    {
        let e = d.network.edges[ce];
        if !crate::graph::contains_id(&d.network.nodes, e.0)
            || !crate::graph::contains_id(&d.network.nodes, e.1) {
            proof {
                assert(d.network.edges@.contains(e));
                assert(d.network.edge_set().contains(e));
                assert(!d.network.closed());
            }
            return false;
        }
        ce += 1;
    }
    proof {
        assert forall|e: (u32, u32)| #[trigger] d.network.edge_set().contains(e) implies
            d.network.node_set().contains(e.0) && d.network.node_set().contains(e.1) by {
            let l = choose|l: int| 0 <= l < d.network.edges@.len() && d.network.edges@[l] == e;
        }
        assert(d.network.closed());
    }
    let mut cn: usize = 0;
    while cn < d.network.nodes.len()
        invariant
            cn <= d.network.nodes@.len(),
            d.network.closed(),
            forall|l: int| 0 <= l < cn ==>
                keys_of(d.mappings@).contains(#[trigger] d.network.nodes@[l]),
        decreases d.network.nodes@.len() - cn,
    {
        if !pairs_contain_key(&d.mappings, d.network.nodes[cn]) {
            proof {
                assert(d.network.node_set().contains(d.network.nodes@[cn as int]));
                assert(!keys_of(d.mappings@).to_set().contains(d.network.nodes@[cn as int]));
            }
            return false;
        }
        cn += 1;
    }
    let mut ck: usize = 0;
    while ck < d.mappings.len()
        invariant
            ck <= d.mappings@.len(),
            d.network.closed(),
            forall|l: int| 0 <= l < d.network.nodes@.len() ==>
                keys_of(d.mappings@).contains(#[trigger] d.network.nodes@[l]),
            forall|l: int| 0 <= l < ck ==>
                d.network.nodes@.contains((#[trigger] d.mappings@[l]).0),
        decreases d.mappings@.len() - ck,
    {
        if !crate::graph::contains_id(&d.network.nodes, d.mappings[ck].0) {
            proof {
                assert(keys_of(d.mappings@)[ck as int] == d.mappings@[ck as int].0);
                assert(keys_of(d.mappings@).contains(d.mappings@[ck as int].0));
                assert(keys_of(d.mappings@).to_set().contains(d.mappings@[ck as int].0));
                assert(!d.network.node_set().contains(d.mappings@[ck as int].0));
            }
            return false;
        }
        ck += 1;
    }
    proof {
        assert forall|k: u32| keys_of(d.mappings@).to_set().contains(k) implies
            #[trigger] d.network.node_set().contains(k) by {
            let l = choose|l: int| 0 <= l < keys_of(d.mappings@).len()
                && keys_of(d.mappings@)[l] == k;
            assert(d.mappings@[l].0 == k);
        }
        assert forall|k: u32| #[trigger] d.network.node_set().contains(k) implies
            keys_of(d.mappings@).to_set().contains(k) by {
            let l = choose|l: int| 0 <= l < d.network.nodes@.len()
                && d.network.nodes@[l] == k;
        }
        assert(keys_of(d.mappings@).to_set() =~= d.network.node_set());
    }
    true
}

/// The largest of `lo` and the values of `v`.
fn max_id_of(v: &Vec<u32>, lo: u32) -> (m: u32)
    ensures
        lo <= m,
        forall|j: int| 0 <= j < v@.len() ==> (#[trigger] v@[j]) <= m,
        m == lo || v@.contains(m),
{
    let mut mx: u32 = lo;
    let mut i: usize = 0;
    while i < v.len()
        invariant
            i <= v@.len(),
            lo <= mx,
            forall|j: int| 0 <= j < i ==> (#[trigger] v@[j]) <= mx,
            mx == lo || v@.contains(mx),
        decreases v@.len() - i,
    {
        let n = v[i];
        if n > mx {
            mx = n;
            proof {
                assert(v@.contains(n));
            }
        }
        i += 1;
    }
    mx
}

/// Builds the renamed fragment graph: each listed id and each edge
/// endpoint goes through the rename table.
fn apply_rename(sub: &Vec<u32>, edges: &Vec<(u32, u32)>, ren: &Vec<(u32, u32)>) -> (g: Graph)
    requires
        sub@.no_duplicates(),
        ren_keys(ren@).no_duplicates(),
        ren_keys(ren@) == sub@,
        forall|l: int| 0 <= l < edges@.len() ==>
            sub@.contains((#[trigger] edges@[l]).0) && sub@.contains(edges@[l].1),
    ensures
        g.wf(),
        g.node_set() == image_set(phi_of(ren@), sub@.to_set()),
        g.edge_set() == renamed_edge_set(phi_of(ren@), edges@.to_set()),
{
    let ghost phi = phi_of(ren@);
    let mut nsn: Vec<u32> = Vec::new();
    let mut rn: usize = 0;
    while rn < sub.len()
        invariant
            rn <= sub@.len(),
            phi == phi_of(ren@),
            ren_keys(ren@).no_duplicates(),
            ren_keys(ren@) == sub@,
            nsn@.len() == rn,
            forall|l: int| 0 <= l < rn ==> (#[trigger] nsn@[l]) == phi[sub@[l]],
        decreases sub@.len() - rn,
    {
        proof {
            assert(ren_keys(ren@).contains(sub@[rn as int]));
        }
        let y = rename_lookup(ren, sub[rn]);
        nsn.push(y);
        rn += 1;
    }
    let mut nse: Vec<(u32, u32)> = Vec::new();
    let mut re: usize = 0;
    while re < edges.len()
        invariant
            re <= edges@.len(),
            phi == phi_of(ren@),
            ren_keys(ren@).no_duplicates(),
            ren_keys(ren@) == sub@,
            forall|l: int| 0 <= l < edges@.len() ==>
                sub@.contains((#[trigger] edges@[l]).0) && sub@.contains(edges@[l].1),
            nse@.len() == re,
            forall|l: int| 0 <= l < re ==> (#[trigger] nse@[l])
                == (phi[edges@[l].0], phi[edges@[l].1]),
        decreases edges@.len() - re,
    {
        let e = edges[re];
        proof {
            assert(sub@.contains(edges@[re as int].0) && sub@.contains(edges@[re as int].1));
        }
        let a = rename_lookup(ren, e.0);
        let b = rename_lookup(ren, e.1);
        nse.push((a, b));
        re += 1;
    }
    let ghost nsn_seq = nsn@;
    let ghost nse_seq = nse@;
    let g = Graph::new(nsn, nse);
    proof {
        assert forall|y: u32| nsn_seq.contains(y) <==>
            #[trigger] image_set(phi, sub@.to_set()).contains(y) by {
            if nsn_seq.contains(y) {
                let l = choose|l: int| 0 <= l < nsn_seq.len() && nsn_seq[l] == y;
                assert(sub@.contains(sub@[l]));
                assert(sub@.to_set().contains(sub@[l]) && phi[sub@[l]] == y);
            }
            if image_set(phi, sub@.to_set()).contains(y) {
                let x = choose|x: u32| sub@.to_set().contains(x) && #[trigger] phi[x] == y;
                let l = choose|l: int| 0 <= l < sub@.len() && sub@[l] == x;
                assert(nsn_seq[l] == y);
                assert(nsn_seq.contains(y));
            }
        }
        assert(g.node_set() =~= image_set(phi, sub@.to_set()));
        assert forall|e: (u32, u32)| nse_seq.contains(e) <==>
            #[trigger] renamed_edge_set(phi, edges@.to_set()).contains(e) by {
            if nse_seq.contains(e) {
                let l = choose|l: int| 0 <= l < nse_seq.len() && nse_seq[l] == e;
                assert(edges@.contains(edges@[l]));
                assert(edges@.to_set().contains(edges@[l]));
                assert(phi[edges@[l].0] == e.0 && phi[edges@[l].1] == e.1);
            }
            if renamed_edge_set(phi, edges@.to_set()).contains(e) {
                let f = choose|f: (u32, u32)| #[trigger] edges@.to_set().contains(f)
                    && phi[f.0] == e.0 && phi[f.1] == e.1;
                let l = choose|l: int| 0 <= l < edges@.len() && edges@[l] == f;
                assert(nse_seq[l] == e);
                assert(nse_seq.contains(e));
            }
        }
        assert(g.edge_set() =~= renamed_edge_set(phi, edges@.to_set()));
    }
    g
}

/// Assembles the contract of one decomposition step from the
/// contracts of its parts.
#[verifier::rlimit(100)]
proof fn lemma_decompose_assemble(
    host: HTN,
    id: u32,
    d: HTN,
    phi: Map<u32, u32>,
    g1: Graph,
    sub_graph: Graph,
    pred: Seq<u32>,
    succ2: Seq<u32>,
    base_pairs: Seq<(u32, Rc<Task>)>,
    renm_pairs: Seq<(u32, Rc<Task>)>,
    result: HTN,
)
    requires
        host.wf(),
        fragment_ok(d),
        rename_ok(phi, d.network.node_set(), host.network.node_set()),
        host.network.node_set().contains(id),
        sub_graph.wf(),
        sub_graph.node_set() == image_set(phi, d.network.node_set()),
        sub_graph.edge_set() == renamed_edge_set(phi, d.network.edge_set()),
        g1.wf(),
        g1.node_set() == host.network.node_set().remove(id),
        g1.edge_set() == host.network.edges_avoiding(id),
        pred.to_set() == host.network.incoming_set(id).remove(id),
        succ2.to_set() == host.network.successors_of(id).remove(id),
        result.network.wf(),
        result.network.node_set() == g1.node_set().union(sub_graph.node_set()),
        result.network.edge_set() == g1.spliced_edges(sub_graph, pred.to_set(), succ2.to_set()),
        keys_of(base_pairs).no_duplicates(),
        map_of(base_pairs) == map_of(host.mappings@).remove(id),
        forall|k: u32| keys_of(base_pairs).contains(k)
            == (keys_of(host.mappings@).contains(k) && k != id),
        keys_of(renm_pairs).no_duplicates(),
        keys_of(renm_pairs).to_set() == image_set(phi, keys_of(d.mappings@).to_set()),
        keys_of(d.mappings@).no_duplicates() ==> (renm_pairs.len() == d.mappings@.len()
            && forall|j: int| 0 <= j < d.mappings@.len() ==>
                (#[trigger] renm_pairs[j]).0 == phi[d.mappings@[j].0]
                    && task_of(renm_pairs[j].1) == task_of(d.mappings@[j].1)),
        result.mappings@ == base_pairs + renm_pairs,
    ensures
        result.wf(),
        !result.task_map().contains_key(id),
        result.network.node_set().len()
            == host.network.node_set().len() - 1 + d.network.node_set().len(),
        host.decompose_result_ok(id, d, phi, result),
        exists|p: Map<u32, u32>| host.decompose_result_ok(id, d, p, result),
{
    let g2 = result.network;

            let host_nodes = host.network.node_set();
            let d_nodes = d.network.node_set();
            let image = image_set(phi, d_nodes);
            let renamed = renamed_edge_set(phi, d.network.edge_set());
            lemma_map_of_dom(host.mappings@);
            lemma_map_of_dom(base_pairs);
            lemma_map_of_dom(renm_pairs);
            lemma_map_of_concat(base_pairs, renm_pairs);
            // a renamed id never lands among the host's ids
            assert forall|y: u32| #[trigger] image.contains(y) implies !host_nodes.contains(y) by {
                let x = choose|x: u32| d_nodes.contains(x) && #[trigger] phi[x] == y;
                if host_nodes.contains(x) {
                    if host_nodes.contains(y) {
                        assert(phi[x] > y);
                    }
                } else {
                    assert(phi[x] == x);
                }
            }
            // the merged key list is duplicate-free
            assert(keys_of(result.mappings@) =~= keys_of(base_pairs) + keys_of(renm_pairs));
            assert forall|j: int, l: int|
                0 <= j < keys_of(result.mappings@).len() && 0 <= l < keys_of(result.mappings@).len() && j != l
                implies (#[trigger] keys_of(result.mappings@)[j]) != (#[trigger] keys_of(result.mappings@)[l]) by {
                let nb = keys_of(base_pairs).len() as int;
                if j < nb && l < nb {
                    assert(keys_of(base_pairs)[j] != keys_of(base_pairs)[l]);
                } else if j >= nb && l >= nb {
                    assert(keys_of(renm_pairs)[j - nb] != keys_of(renm_pairs)[l - nb]);
                } else {
                    let (bj, rl) = if j < nb { (j, l - nb) } else { (l, j - nb) };
                    let kb = keys_of(base_pairs)[bj];
                    let kr = keys_of(renm_pairs)[rl];
                    assert(keys_of(base_pairs).contains(kb));
                    assert(keys_of(host.mappings@).contains(kb));
                    assert(host.task_map().dom().contains(kb));
                    assert(host_nodes.contains(kb));
                    assert(keys_of(renm_pairs).contains(kr));
                    assert(keys_of(renm_pairs).to_set().contains(kr));
                    assert(image_set(phi, keys_of(d.mappings@).to_set()).contains(kr));
                    assert(image.contains(kr));
                    assert(!host_nodes.contains(kr));
                    assert(kb != kr);
                }
            }
            assert(keys_of(result.mappings@).no_duplicates());
            // the mapping's domain matches the spliced node set
            assert(image_set(phi, keys_of(d.mappings@).to_set()) =~= image);
            assert(map_of(result.mappings@).dom()
                =~= host.task_map().dom().remove(id).union(image));
            assert(g2.node_set() == host_nodes.remove(id).union(image));
            assert(map_of(result.mappings@).dom() =~= g2.node_set());
            // the spliced graph stays closed
            assert(sub_graph.unconstrained_set() =~= crate::graph::unconstrained_in(image, renamed));
            assert(sub_graph.terminal_set() =~= crate::graph::terminal_in(image, renamed));
            let pred_set = host.network.incoming_set(id).remove(id);
            let succ_set = host.network.successors_of(id).remove(id);
            assert(g2.edge_set() == g1.spliced_edges(sub_graph, pred_set, succ_set));
            assert forall|e: (u32, u32)| #[trigger] g2.edge_set().contains(e) implies
                g2.node_set().contains(e.0) && g2.node_set().contains(e.1) by {
                if g1.edge_set().contains(e) {
                    assert(host.network.edge_set().contains(e));
                } else if pred_set.contains(e.0) && sub_graph.unconstrained_set().contains(e.1) {
                    assert(host.network.edge_set().contains((e.0, id)));
                } else if sub_graph.terminal_set().contains(e.0) && succ_set.contains(e.1) {
                    assert(host.network.edge_set().contains((id, e.1)));
                } else {
                    assert(sub_graph.edge_set().contains(e));
                    let f = choose|f: (u32, u32)| #[trigger] d.network.edge_set().contains(f)
                        && phi[f.0] == e.0 && phi[f.1] == e.1;
                    assert(d_nodes.contains(f.0) && d_nodes.contains(f.1));
                    assert(image.contains(e.0) && image.contains(e.1));
                }
            }
            assert(result.wf());
            // the task count grows by the fragment's size, less one
            assert(phi.is_injective()) by {
                assert forall|x: u32, y: u32|
                    x != y && phi.dom().contains(x) && phi.dom().contains(y)
                    implies #[trigger] phi[x] != #[trigger] phi[y] by {
                    if phi[x] == phi[y] {
                        assert(d_nodes.contains(x) && d_nodes.contains(y));
                    }
                }
            }
            assert(phi.dom().finite()) by {
                assert(d.network.nodes@.to_set().finite());
            }
            phi.lemma_injective_values_len();
            assert(image =~= phi.values()) by {
                assert forall|y: u32| image.contains(y) <==> #[trigger] phi.values().contains(y) by {
                    if image.contains(y) {
                        let x = choose|x: u32| d_nodes.contains(x) && #[trigger] phi[x] == y;
                        assert(phi.dom().contains(x) && phi[x] == y);
                    }
                    if phi.values().contains(y) {
                        let x = choose|x: u32| #[trigger] phi.dom().contains(x) && phi[x] == y;
                        assert(d_nodes.contains(x));
                    }
                }
            }
            assert(host_nodes.finite()) by {
                assert(host.network.nodes@.to_set().finite());
            }
            assert(host_nodes.remove(id).disjoint(image)) by {
                assert forall|y: u32| host_nodes.remove(id).contains(y) implies
                    !(#[trigger] image.contains(y)) by {
                    if image.contains(y) {
                        assert(!host_nodes.contains(y));
                    }
                }
            }
            lemma_len_disjoint_union(host_nodes.remove(id), image);
            assert(host_nodes.remove(id).len() == host_nodes.len() - 1);
            assert(g2.node_set().len() == host_nodes.len() - 1 + d_nodes.len());
            // `id` itself is gone from the mapping
            assert(!result.task_map().contains_key(id));
            // surviving host tasks keep their values
            assert forall|k: u32| host.task_map().dom().contains(k) && k != id implies
                #[trigger] result.task_map()[k] == host.task_map()[k] by {
                assert(host_nodes.contains(k));
                if map_of(renm_pairs).dom().contains(k) {
                    assert(keys_of(renm_pairs).to_set().contains(k));
                    assert(image.contains(k));
                    assert(false);
                }
                assert(result.task_map()[k] == map_of(base_pairs)[k]);
            }
            // fragment tasks arrive under their renamed ids
            if keys_of(d.mappings@).no_duplicates() {
                assert forall|j: int| 0 <= j < d.mappings@.len() implies
                    result.task_map()[phi[(#[trigger] d.mappings@[j]).0]]
                        == task_of(d.mappings@[j].1) by {
                    assert(renm_pairs[j].0 == phi[d.mappings@[j].0]
                        && task_of(renm_pairs[j].1) == task_of(d.mappings@[j].1));
                    lemma_map_of_index(renm_pairs, j);
                    assert(map_of(renm_pairs)[phi[d.mappings@[j].0]] == task_of(d.mappings@[j].1));
                    assert(map_of(renm_pairs).dom().contains(phi[d.mappings@[j].0]));
                }
            }
            assert(host.decompose_result_ok(id, d, phi, result));
        
}

impl HTN {
    /// What one decomposition step produces, given the id-collision
    /// resolution `phi` it used: `id`'s node and edges are gone, the
    /// renamed fragment is spliced between `id`'s former predecessors
    /// and successors, and the mapping carries the fragment's tasks
    /// under their renamed ids.
    pub open spec fn decompose_result_ok(self, id: u32, d: HTN, phi: Map<u32, u32>, r: HTN) -> bool {
        let sub_nodes = image_set(phi, d.network.node_set());
        let sub_edges = renamed_edge_set(phi, d.network.edge_set());
        &&& rename_ok(phi, d.network.node_set(), self.network.node_set())
        &&& r.network.node_set() == self.network.node_set().remove(id).union(sub_nodes)
        &&& r.network.edge_set() == self.network.edges_avoiding(id)
            .union(crate::graph::cross_set(self.network.incoming_set(id).remove(id),
                crate::graph::unconstrained_in(sub_nodes, sub_edges)))
            .union(crate::graph::cross_set(crate::graph::terminal_in(sub_nodes, sub_edges),
                self.network.successors_of(id).remove(id)))
            .union(sub_edges)
        &&& r.task_map().dom() == self.task_map().dom().remove(id).union(sub_nodes)
        &&& forall|k: u32| self.task_map().dom().contains(k) && k != id
                ==> #[trigger] r.task_map()[k] == self.task_map()[k]
        &&& (keys_of(d.mappings@).no_duplicates() ==> forall|j: int| 0 <= j < d.mappings@.len()
                ==> r.task_map()[phi[(#[trigger] d.mappings@[j]).0]] == task_of(d.mappings@[j].1))
    }

    /// Replaces the compound task at `id` with the method's
    /// decomposition fragment: colliding fragment ids are renamed to
    /// fresh values above every id in use, `id`'s former predecessors
    /// are wired to the fragment's entry nodes and the fragment's
    /// terminal nodes to `id`'s former successors. The result never
    /// holds two equal ids, even when the fragment's ids intersect the
    /// network's, and grows by the fragment's size, less one. A
    /// self-loop on `id` is dropped with the node. The call fails when
    /// `id` has no outgoing edge, and when the fragment is
    /// inconsistent with its own mapping.
    #[verifier::rlimit(100)]
    pub fn decompose(&self, id: u32, method: &Method) -> (r: Result<HTN, NetworkError>)
        requires
            self.wf(),
            forall|x: u32|
                #![trigger self.network.node_set().contains(x)]
                #![trigger method.decomposition.network.node_set().contains(x)]
                (self.network.node_set().contains(x)
                    || method.decomposition.network.node_set().contains(x))
                ==> x as int + method.decomposition.network.nodes@.len() + 1 <= u32::MAX as int,
        ensures
            r is Ok <==> (self.network.has_outgoing(id) && fragment_ok(method.decomposition)),
            r matches Err(e) ==> (e == NetworkError::InvalidReference
                <==> !self.network.has_outgoing(id)),
            r matches Ok(n) ==> n.wf(),
            r matches Ok(n) ==> !n.task_map().contains_key(id),
            r matches Ok(n) ==> n.network.node_set().len() == self.network.node_set().len() - 1
                + method.decomposition.network.node_set().len(),
            r matches Ok(n) ==> exists|phi: Map<u32, u32>|
                self.decompose_result_ok(id, method.decomposition, phi, n),
    {
        // the successors of `id`, captured before any change
        let neighbors = self.network.get_neighbors(id);
        if neighbors.is_none() {
            return Err(NetworkError::InvalidReference);
        }
        assert(self.network.has_outgoing(id));
        let succ = match neighbors {
            Some(v) => v,
            None => {
                return Err(NetworkError::InvalidReference);
            },
        };
        // the fragment must be consistent before it is spliced in
        if !check_fragment(&method.decomposition) {
            return Err(NetworkError::MalformedDecomposition);
        }
        // the highest id in use, for fresh-id allocation
        let mx0 = max_id_of(&self.network.nodes, 0);
        let mx = max_id_of(&method.decomposition.network.nodes, mx0);
        proof {
            if mx == 0 {
                if method.decomposition.network.nodes@.len() > 0 {
                    assert(method.decomposition.network.nodes@
                        .contains(method.decomposition.network.nodes@[0]));
                    assert(method.decomposition.network.node_set()
                        .contains(method.decomposition.network.nodes@[0]));
                }
            } else {
                if mx == mx0 {
                    assert(self.network.nodes@.contains(mx));
                    assert(self.network.node_set().contains(mx));
                } else {
                    assert(method.decomposition.network.node_set().contains(mx));
                }
            }
            assert(mx as int + 1 + method.decomposition.network.nodes@.len() <= u32::MAX as int);
        }
        let dn = crate::graph::dedup_ids(&method.decomposition.network.nodes);
        let start = mx + 1;
        proof {
            assert forall|j: int| 0 <= j < dn@.len() implies (#[trigger] dn@[j]) < start by {
                assert(dn@.contains(dn@[j]));
                assert(method.decomposition.network.nodes@.contains(dn@[j]));
                let l = choose|l: int| 0 <= l < method.decomposition.network.nodes@.len()
                    && method.decomposition.network.nodes@[l] == dn@[j];
            }
        }
        let ren = build_rename(&dn, &self.network.nodes, start);
        let ghost phi = phi_of(ren@);
        proof {
            assert(ren_keys(ren@) =~= dn@);
            assert forall|x: u32| method.decomposition.network.node_set().contains(x) implies
                #[trigger] dn@.contains(x) by {
                let l = choose|l: int| 0 <= l < method.decomposition.network.nodes@.len()
                    && method.decomposition.network.nodes@[l] == x;
            }
            assert(dn@.to_set() =~= method.decomposition.network.node_set());
            assert(rename_ok(phi, method.decomposition.network.node_set(), self.network.node_set()));
        }
        // the fragment, renamed
        proof {
            assert forall|l: int| 0 <= l < method.decomposition.network.edges@.len() implies
                dn@.contains((#[trigger] method.decomposition.network.edges@[l]).0)
                && dn@.contains(method.decomposition.network.edges@[l].1) by {
                let e = method.decomposition.network.edges@[l];
                assert(method.decomposition.network.edges@.contains(e));
                assert(method.decomposition.network.edge_set().contains(e));
                assert(method.decomposition.network.node_set().contains(e.0)
                    && method.decomposition.network.node_set().contains(e.1));
            }
        }
        let sub_graph = apply_rename(&dn, &method.decomposition.network.edges, &ren);
        proof {
            assert(sub_graph.node_set() == image_set(phi, method.decomposition.network.node_set()));
            assert(sub_graph.edge_set()
                == renamed_edge_set(phi, method.decomposition.network.edge_set()));
        }
        // splice the fragment where `id` stood
        let pred = crate::graph::exclude_id(&self.network.get_incoming_edges(id), id);
        let succ2 = crate::graph::exclude_id(&succ, id);
        let g1 = self.network.remove_node(id);
        proof {
            let y0 = choose|y: u32| self.network.edge_set().contains((id, y));
            assert(self.network.node_set().contains(id));
        }
        let g2 = g1.add_subgraph(sub_graph, pred, succ2);
        // merge the mappings
        let base = mappings_without(&self.mappings, id);
        proof {
            assert forall|k: u32| keys_of(method.decomposition.mappings@).contains(k) implies
                #[trigger] ren_keys(ren@).contains(k) by {
                assert(keys_of(method.decomposition.mappings@).to_set().contains(k));
                assert(method.decomposition.network.node_set().contains(k));
                assert(dn@.contains(k));
            }
            assert forall|a: u32, b: u32| ren_keys(ren@).contains(a) && ren_keys(ren@).contains(b)
                && #[trigger] phi_of(ren@)[a] == #[trigger] phi_of(ren@)[b] implies a == b by {
                assert(method.decomposition.network.node_set().contains(a) && method.decomposition.network.node_set().contains(b));
            }
        }
        let renm = renamed_mappings(&method.decomposition.mappings, &ren);
        let ghost base0 = base@;
        let ghost renm0 = renm@;
        let mut merged = base;
        let mut mg: usize = 0;
        while mg < renm.len()
            invariant
                mg <= renm0.len(),
                renm0 == renm@,
                merged@ == base0 + renm0.take(mg as int),
            decreases renm0.len() - mg,
        {
            merged.push((renm[mg].0, renm[mg].1.clone()));
            proof {
                assert(merged@.last().0 == renm0[mg as int].0
                    && task_of(merged@.last().1) == task_of(renm0[mg as int].1));
                assert(merged@.last() == renm0[mg as int]);
                assert(base0 + renm0.take(mg + 1)
                    =~= (base0 + renm0.take(mg as int)).push(renm0[mg as int]));
            }
            mg += 1;
        }
        proof {
            assert(renm0.take(renm0.len() as int) =~= renm0);
            assert(merged@ == base0 + renm0);
        }
        let result = HTN { network: g2, mappings: merged };
        proof {
            lemma_decompose_assemble(
                *self, id, method.decomposition, phi, g1, sub_graph, pred@, succ2@, base0, renm0, result,
            );
        }
        let out: Result<HTN, NetworkError> = Ok(result);
        proof {
            assert(out->Ok_0 == result);
            assert(exists|p: Map<u32, u32>|
                self.decompose_result_ok(id, method.decomposition, p, out->Ok_0));
        }
        out
    }
}

/// The identity labels of the values a label list holds.
pub open spec fn labels_set(v: Seq<(bool, String)>) -> Set<(bool, Seq<char>)> {
    Set::new(|lab: (bool, Seq<char>)| exists|j: int|
        0 <= j < v.len() && (#[trigger] v[j]).0 == lab.0 && v[j].1@ == lab.1)
}

/// Every layer of a closed graph stays inside its nodes.
proof fn lemma_layers_from_subset(g: Graph, cur: Set<u32>, fuel: nat)
    requires
        g.closed(),
    ensures
        forall|k: int| 0 <= k < g.layers_from(cur, fuel).len()
            ==> (#[trigger] g.layers_from(cur, fuel)[k]).subset_of(g.node_set()),
    decreases fuel,
{
    if fuel == 0 {
    } else {
        let nxt = g.successors_set(cur);
        if nxt.is_empty() {
        } else {
            lemma_layers_from_subset(g, nxt, (fuel - 1) as nat);
            assert forall|y: u32| #[trigger] nxt.contains(y) implies g.node_set().contains(y) by {
                let x = choose|x: u32| cur.contains(x) && #[trigger] g.edge_set().contains((x, y));
            }
            assert(nxt.subset_of(g.node_set()));
            assert forall|k: int| 0 <= k < g.layers_from(cur, fuel).len() implies
                (#[trigger] g.layers_from(cur, fuel)[k]).subset_of(g.node_set()) by {
                if k == 0 {
                    assert(g.layers_from(cur, fuel)[0] == nxt);
                } else {
                    assert(g.layers_from(cur, fuel)[k] == g.layers_from(nxt, (fuel - 1) as nat)[k - 1]);
                }
            }
        }
    }
}

/// Every layer of a closed graph stays inside its nodes.
pub proof fn lemma_spec_layers_subset(g: Graph)
    requires
        g.closed(),
    ensures
        forall|k: int| 0 <= k < g.spec_layers().len()
            ==> (#[trigger] g.spec_layers()[k]).subset_of(g.node_set()),
{
    lemma_layers_from_subset(g, g.unconstrained_set(), g.node_set().len());
    assert forall|k: int| 0 <= k < g.spec_layers().len() implies
        (#[trigger] g.spec_layers()[k]).subset_of(g.node_set()) by {
        if k == 0 {
            assert(g.spec_layers()[0] == g.unconstrained_set());
            assert forall|y: u32| #[trigger] g.unconstrained_set().contains(y) implies
                g.node_set().contains(y) by {}
        } else {
            assert(g.spec_layers()[k]
                == g.layers_from(g.unconstrained_set(), g.node_set().len())[k - 1]);
        }
    }
}

/// Membership test of a label in a label list.
fn labels_contain(v: &Vec<(bool, String)>, lab: &(bool, String)) -> (b: bool)
    ensures
        b == labels_set(v@).contains((lab.0, lab.1@)),
{
    let mut i: usize = 0;
    while i < v.len()
        invariant
            i <= v@.len(),
            forall|j: int| 0 <= j < i ==> !((#[trigger] v@[j]).0 == lab.0 && v@[j].1@ == lab.1@),
        decreases v@.len() - i,
    {
        if v[i].0 == lab.0 && v[i].1 == lab.1 {
            proof {
                assert(v@[i as int].0 == lab.0 && v@[i as int].1@ == lab.1@);
            }
            return true;
        }
        i += 1;
    }
    proof {
        if labels_set(v@).contains((lab.0, lab.1@)) {
            let j = choose|j: int| 0 <= j < v@.len()
                && (#[trigger] v@[j]).0 == lab.0 && v@[j].1@ == lab.1@;
        }
    }
    false
}

/// Whether two label lists hold the same label sets.
fn labels_eq(a: &Vec<(bool, String)>, b: &Vec<(bool, String)>) -> (r: bool)
    ensures
        r == (labels_set(a@) == labels_set(b@)),
{
    let mut i: usize = 0;
    while i < a.len()
        invariant
            i <= a@.len(),
            forall|j: int| 0 <= j < i ==>
                labels_set(b@).contains(((#[trigger] a@[j]).0, a@[j].1@)),
        decreases a@.len() - i,
    {
        let present = labels_contain(b, &a[i]);
        if !present {
            proof {
                assert(a@[i as int].0 == a@[i as int].0 && a@[i as int].1@ == a@[i as int].1@);
                assert(labels_set(a@).contains((a@[i as int].0, a@[i as int].1@)));
            }
            return false;
        }
        i += 1;
    }
    let mut j: usize = 0;
    while j < b.len()
        invariant
            j <= b@.len(),
            forall|l: int| 0 <= l < a@.len() ==>
                labels_set(b@).contains(((#[trigger] a@[l]).0, a@[l].1@)),
            forall|l: int| 0 <= l < j ==>
                labels_set(a@).contains(((#[trigger] b@[l]).0, b@[l].1@)),
        decreases b@.len() - j,
    {
        let present = labels_contain(a, &b[j]);
        if !present {
            proof {
                assert(b@[j as int].0 == b@[j as int].0 && b@[j as int].1@ == b@[j as int].1@);
                assert(labels_set(b@).contains((b@[j as int].0, b@[j as int].1@)));
            }
            return false;
        }
        j += 1;
    }
    proof {
        assert forall|lab: (bool, Seq<char>)| labels_set(a@).contains(lab) implies
            #[trigger] labels_set(b@).contains(lab) by {
            let l = choose|l: int| 0 <= l < a@.len()
                && (#[trigger] a@[l]).0 == lab.0 && a@[l].1@ == lab.1;
            assert(labels_set(b@).contains((a@[l].0, a@[l].1@)));
        }
        assert forall|lab: (bool, Seq<char>)| labels_set(b@).contains(lab) implies
            #[trigger] labels_set(a@).contains(lab) by {
            let l = choose|l: int| 0 <= l < b@.len()
                && (#[trigger] b@[l]).0 == lab.0 && b@[l].1@ == lab.1;
            assert(labels_set(a@).contains((b@[l].0, b@[l].1@)));
        }
        assert(labels_set(a@) =~= labels_set(b@));
    }
    true
}

/// Two networks are isomorphic when their layer decompositions have
/// the same length and, layer by layer, carry the same set of task
/// labels.
pub open spec fn spec_isomorphic(a: HTN, b: HTN) -> bool {
    let la = a.network.spec_layers();
    let lb = b.network.spec_layers();
    &&& la.len() == lb.len()
    &&& forall|k: int| 0 <= k < la.len()
            ==> a.layer_label_set(#[trigger] la[k]) == b.layer_label_set(lb[k])
}

impl HTN {
    /// The set of task labels attached to the ids of `layer`.
    pub open spec fn layer_label_set(self, layer: Set<u32>) -> Set<(bool, Seq<char>)> {
        Set::new(|lab: (bool, Seq<char>)| exists|x: u32|
            layer.contains(x) && (#[trigger] self.task_map()[x]).label() == lab)
    }

    /// The task labels of each layer, as concrete lists.
    fn layers_to_tasks(&self, layers: Vec<Vec<u32>>) -> (r: Vec<Vec<(bool, String)>>)
        requires
            self.wf(),
            forall|k: int, j: int| 0 <= k < layers@.len() && 0 <= j < layers@[k]@.len()
                ==> self.network.node_set().contains(#[trigger] layers@[k]@[j]),
        ensures
            r@.len() == layers@.len(),
            forall|k: int| 0 <= k < layers@.len()
                ==> labels_set((#[trigger] r@[k])@) == self.layer_label_set(layers@[k]@.to_set()),
    {
        proof {
            lemma_map_of_dom(self.mappings@);
        }
        let mut r: Vec<Vec<(bool, String)>> = Vec::new();
        let mut k: usize = 0;
        while k < layers.len()
            invariant
                k <= layers@.len(),
                self.wf(),
                self.task_map().dom() == self.network.node_set(),
                forall|l: int, j: int| 0 <= l < layers@.len() && 0 <= j < layers@[l]@.len()
                    ==> self.network.node_set().contains(#[trigger] layers@[l]@[j]),
                r@.len() == k,
                forall|l: int| 0 <= l < k
                    ==> labels_set((#[trigger] r@[l])@) == self.layer_label_set(layers@[l]@.to_set()),
            decreases layers@.len() - k,
        {
            let layer = &layers[k];
            let mut out: Vec<(bool, String)> = Vec::new();
            let mut j: usize = 0;
            while j < layer.len()
                invariant
                    j <= layer@.len(),
                    self.wf(),
                    self.task_map().dom() == self.network.node_set(),
                    k < layers@.len(),
                    layer@ == layers@[k as int]@,
                    forall|l: int, j2: int| 0 <= l < layers@.len() && 0 <= j2 < layers@[l]@.len()
                        ==> self.network.node_set().contains(#[trigger] layers@[l]@[j2]),
                    out@.len() == j,
                    forall|l: int| 0 <= l < j ==>
                        ((#[trigger] out@[l]).0, out@[l].1@)
                            == self.task_map()[layer@[l]].label(),
                decreases layer@.len() - j,
            {
                let id = layer[j];
                proof {
                    assert(self.network.node_set().contains(layers@[k as int]@[j as int]));
                    assert(self.task_map().contains_key(id));
                }
                match self.get_task(id) {
                    Some(t) => {
                        let is_prim = match t {
                            Task::Primitive(_) => true,
                            Task::Compound(_) => false,
                        };
                        let name = t.get_name();
                        out.push((is_prim, name));
                        proof {
                            assert((out@.last().0, out@.last().1@)
                                == self.task_map()[layer@[j as int]].label());
                        }
                    },
                    None => {
                        proof {
                            assert(false);
                        }
                    },
                }
                j += 1;
            }
            r.push(out);
            proof {
                let lv = layers@[k as int]@;
                let ov = r@[k as int]@;
                assert forall|lab: (bool, Seq<char>)| labels_set(ov).contains(lab) <==>
                    #[trigger] self.layer_label_set(lv.to_set()).contains(lab) by {
                    if labels_set(ov).contains(lab) {
                        let l = choose|l: int| 0 <= l < ov.len()
                            && (#[trigger] ov[l]).0 == lab.0 && ov[l].1@ == lab.1;
                        assert((ov[l].0, ov[l].1@) == self.task_map()[lv[l]].label());
                        assert(lv.contains(lv[l]));
                        assert(lv.to_set().contains(lv[l])
                            && self.task_map()[lv[l]].label() == lab);
                    }
                    if self.layer_label_set(lv.to_set()).contains(lab) {
                        let x = choose|x: u32| lv.to_set().contains(x)
                            && (#[trigger] self.task_map()[x]).label() == lab;
                        let l = choose|l: int| 0 <= l < lv.len() && lv[l] == x;
                        assert((ov[l].0, ov[l].1@) == self.task_map()[lv[l]].label());
                        assert(ov[l].0 == lab.0 && ov[l].1@ == lab.1);
                    }
                }
                assert(labels_set(ov) =~= self.layer_label_set(lv.to_set()));
            }
            k += 1;
        }
        r
    }

    /// Whether two networks are structurally equivalent: the same
    /// number of layers, and the same set of task labels in each.
    pub fn is_isomorphic(tn1: &HTN, tn2: &HTN) -> (r: bool)
        requires
            tn1.wf(),
            tn2.wf(),
        ensures
            r == spec_isomorphic(*tn1, *tn2),
    {
        let l1 = tn1.network.to_layers();
        let l2 = tn2.network.to_layers();
        if l1.len() != l2.len() {
            return false;
        }
        proof {
            lemma_spec_layers_subset(tn1.network);
            lemma_spec_layers_subset(tn2.network);
            assert forall|k: int, j: int| 0 <= k < l1@.len() && 0 <= j < l1@[k]@.len() implies
                tn1.network.node_set().contains(#[trigger] l1@[k]@[j]) by {
                assert(l1@[k]@.contains(l1@[k]@[j]));
                assert(l1@[k]@.to_set().contains(l1@[k]@[j]));
                assert(tn1.network.spec_layers()[k].contains(l1@[k]@[j]));
            }
            assert forall|k: int, j: int| 0 <= k < l2@.len() && 0 <= j < l2@[k]@.len() implies
                tn2.network.node_set().contains(#[trigger] l2@[k]@[j]) by {
                assert(l2@[k]@.contains(l2@[k]@[j]));
                assert(l2@[k]@.to_set().contains(l2@[k]@[j]));
                assert(tn2.network.spec_layers()[k].contains(l2@[k]@[j]));
            }
        }
        let ghost l1v = l1@;
        let ghost l2v = l2@;
        let t1 = tn1.layers_to_tasks(l1);
        let t2 = tn2.layers_to_tasks(l2);
        let mut k: usize = 0;
        while k < t1.len()
            invariant
                k <= t1@.len(),
                t1@.len() == t2@.len(),
                t1@.len() == l1v.len(),
                l1v.len() == l2v.len(),
                l1v.len() == tn1.network.spec_layers().len(),
                l2v.len() == tn2.network.spec_layers().len(),
                forall|l: int| 0 <= l < l1v.len() ==>
                    (#[trigger] l1v[l])@.to_set() == tn1.network.spec_layers()[l],
                forall|l: int| 0 <= l < l2v.len() ==>
                    (#[trigger] l2v[l])@.to_set() == tn2.network.spec_layers()[l],
                forall|l: int| 0 <= l < t1@.len() ==>
                    labels_set((#[trigger] t1@[l])@) == tn1.layer_label_set(l1v[l]@.to_set()),
                forall|l: int| 0 <= l < t2@.len() ==>
                    labels_set((#[trigger] t2@[l])@) == tn2.layer_label_set(l2v[l]@.to_set()),
                forall|l: int| 0 <= l < k ==>
                    tn1.layer_label_set(#[trigger] tn1.network.spec_layers()[l])
                        == tn2.layer_label_set(tn2.network.spec_layers()[l]),
            decreases t1@.len() - k,
        {
            let same = labels_eq(&t1[k], &t2[k]);
            if !same {
                proof {
                    assert(tn1.layer_label_set(tn1.network.spec_layers()[k as int])
                        != tn2.layer_label_set(tn2.network.spec_layers()[k as int]));
                }
                return false;
            }
            k += 1;
        }
        true
    }
}

impl HTN {
    /// Whether every id of this network and of the method's fragment
    /// leaves room for the fresh ids a decomposition may need.
    pub fn decompose_ids_bounded(&self, method: &Method) -> (b: bool)
        ensures
            b == (forall|x: u32|
                #![trigger self.network.node_set().contains(x)]
                #![trigger method.decomposition.network.node_set().contains(x)]
                (self.network.node_set().contains(x)
                    || method.decomposition.network.node_set().contains(x))
                ==> x as int + method.decomposition.network.nodes@.len() + 1 <= u32::MAX as int),
    {
        let frag_len = method.decomposition.network.nodes.len();
        if self.network.nodes.is_empty() && method.decomposition.network.nodes.is_empty() {
            proof {
                assert forall|x: u32| !(#[trigger] self.network.node_set().contains(x)) by {
                    if self.network.nodes@.contains(x) {
                        let j = choose|j: int| 0 <= j < self.network.nodes@.len()
                            && self.network.nodes@[j] == x;
                    }
                }
                assert forall|x: u32|
                    !(#[trigger] method.decomposition.network.node_set().contains(x)) by {
                    if method.decomposition.network.nodes@.contains(x) {
                        let j = choose|j: int| 0 <= j < method.decomposition.network.nodes@.len()
                            && method.decomposition.network.nodes@[j] == x;
                    }
                }
            }
            return true;
        }
        if frag_len >= u32::MAX as usize {
            proof {
                if self.network.nodes@.len() > 0 {
                    assert(self.network.nodes@.contains(self.network.nodes@[0]));
                    assert(self.network.node_set().contains(self.network.nodes@[0]));
                } else {
                    assert(method.decomposition.network.nodes@
                        .contains(method.decomposition.network.nodes@[0]));
                    assert(method.decomposition.network.node_set()
                        .contains(method.decomposition.network.nodes@[0]));
                }
            }
            return false;
        }
        let mx0 = max_id_of(&self.network.nodes, 0);
        let mx = max_id_of(&method.decomposition.network.nodes, mx0);
        let fits = (mx as u64) + (frag_len as u64) + 1 <= u32::MAX as u64;
        proof {
            if fits {
                assert forall|x: u32|
                    (self.network.node_set().contains(x)
                        || method.decomposition.network.node_set().contains(x))
                    implies x as int + method.decomposition.network.nodes@.len() + 1
                        <= u32::MAX as int by {
                    if self.network.node_set().contains(x) {
                        let j = choose|j: int| 0 <= j < self.network.nodes@.len()
                            && self.network.nodes@[j] == x;
                        assert(x <= mx0);
                    } else {
                        let j = choose|j: int| 0 <= j < method.decomposition.network.nodes@.len()
                            && method.decomposition.network.nodes@[j] == x;
                        assert(x <= mx);
                    }
                }
            } else {
                if mx == 0 {
                } else if mx == mx0 {
                    assert(self.network.nodes@.contains(mx) || mx0 == 0);
                    if mx0 == 0 {
                    } else {
                        assert(self.network.node_set().contains(mx));
                    }
                } else {
                    assert(method.decomposition.network.nodes@.contains(mx));
                    assert(method.decomposition.network.node_set().contains(mx));
                }
            }
        }
        fits
    }
}

/// Isomorphism is reflexive: every well-formed network is isomorphic
/// to itself.
pub proof fn lemma_isomorphic_reflexive(a: HTN)
    ensures
        spec_isomorphic(a, a),
{
}

/// Isomorphism is symmetric: comparing two networks in either order
/// gives the same answer.
pub proof fn lemma_isomorphic_symmetric(a: HTN, b: HTN)
    ensures
        spec_isomorphic(a, b) == spec_isomorphic(b, a),
{
}

/// Networks whose layer decompositions differ in length are never
/// isomorphic.
pub proof fn lemma_isomorphic_layer_counts(a: HTN, b: HTN)
    ensures
        a.network.spec_layers().len() != b.network.spec_layers().len()
            ==> !spec_isomorphic(a, b),
{
}

/// `b` is `a` under a uniform relabeling of node ids through `phi`:
/// the renaming is defined exactly on `a`'s nodes, sends no two nodes
/// to the same id, carries `a`'s nodes and edges onto `b`'s, and
/// keeps each node's task label.
pub open spec fn relabeling_ok(a: HTN, b: HTN, phi: Map<u32, u32>) -> bool {
    &&& phi.dom() == a.network.node_set()
    &&& forall|x: u32, y: u32| a.network.node_set().contains(x)
            && a.network.node_set().contains(y)
            && #[trigger] phi[x] == #[trigger] phi[y] ==> x == y
    &&& b.network.node_set() == image_set(phi, a.network.node_set())
    &&& b.network.edge_set() == renamed_edge_set(phi, a.network.edge_set())
    &&& forall|x: u32| #[trigger] a.network.node_set().contains(x)
            ==> b.task_map()[phi[x]].label() == a.task_map()[x].label()
}

/// Renaming commutes with taking direct successors.
proof fn lemma_relabel_successors(a: HTN, b: HTN, phi: Map<u32, u32>, s: Set<u32>)
    requires
        a.wf(),
        b.wf(),
        relabeling_ok(a, b, phi),
        s.subset_of(a.network.node_set()),
    ensures
        b.network.successors_set(image_set(phi, s))
            == image_set(phi, a.network.successors_set(s)),
{
    let lhs = b.network.successors_set(image_set(phi, s));
    let rhs = image_set(phi, a.network.successors_set(s));
    assert forall|y: u32| #![all_triggers] lhs.contains(y) <==> rhs.contains(y) by {
        if lhs.contains(y) {
            let w = choose|w: u32| image_set(phi, s).contains(w)
                && #[trigger] b.network.edge_set().contains((w, y));
            let x = choose|x: u32| s.contains(x) && #[trigger] phi[x] == w;
            let f = choose|f: (u32, u32)| #[trigger] a.network.edge_set().contains(f)
                && phi[f.0] == w && phi[f.1] == y;
            assert(a.network.node_set().contains(f.0) && a.network.node_set().contains(f.1));
            assert(a.network.node_set().contains(x));
            assert(f.0 == x);
            assert(a.network.edge_set().contains((x, f.1)));
            assert(a.network.successors_set(s).contains(f.1));
            assert(phi[f.1] == y);
            assert(rhs.contains(y));
        }
        if rhs.contains(y) {
            let t = choose|t: u32| a.network.successors_set(s).contains(t)
                && #[trigger] phi[t] == y;
            let x = choose|x: u32| s.contains(x)
                && #[trigger] a.network.edge_set().contains((x, t));
            assert(renamed_edge_set(phi, a.network.edge_set()).contains((phi[x], phi[t]))) by {
                let f = (x, t);
                assert(a.network.edge_set().contains(f)
                    && phi[f.0] == phi[x] && phi[f.1] == phi[t]);
            }
            assert(b.network.edge_set().contains((phi[x], y)));
            assert(image_set(phi, s).contains(phi[x]));
            assert(lhs.contains(y));
        }
    }
    assert(lhs =~= rhs);
}

/// Renaming commutes with taking the unconstrained set.
proof fn lemma_relabel_unconstrained(a: HTN, b: HTN, phi: Map<u32, u32>)
    requires
        a.wf(),
        b.wf(),
        relabeling_ok(a, b, phi),
    ensures
        b.network.unconstrained_set()
            == image_set(phi, a.network.unconstrained_set()),
{
    let lhs = b.network.unconstrained_set();
    let rhs = image_set(phi, a.network.unconstrained_set());
    assert forall|y: u32| #![all_triggers] lhs.contains(y) <==> rhs.contains(y) by {
        if lhs.contains(y) {
            assert(b.network.node_set().contains(y));
            let x = choose|x: u32| a.network.node_set().contains(x) && #[trigger] phi[x] == y;
            assert(!a.network.has_incoming(x)) by {
                if a.network.has_incoming(x) {
                    let u = choose|u: u32| #[trigger] a.network.edge_set().contains((u, x));
                    assert(renamed_edge_set(phi, a.network.edge_set())
                        .contains((phi[u], phi[x]))) by {
                        let f = (u, x);
                        assert(a.network.edge_set().contains(f)
                            && phi[f.0] == phi[u] && phi[f.1] == phi[x]);
                    }
                    assert(b.network.edge_set().contains((phi[u], y)));
                    assert(b.network.has_incoming(y));
                }
            }
            assert(a.network.unconstrained_set().contains(x));
            assert(rhs.contains(y));
        }
        if rhs.contains(y) {
            let x = choose|x: u32| a.network.unconstrained_set().contains(x)
                && #[trigger] phi[x] == y;
            assert(a.network.node_set().contains(x));
            assert(b.network.node_set().contains(y)) by {
                assert(image_set(phi, a.network.node_set()).contains(y));
            }
            assert(!b.network.has_incoming(y)) by {
                if b.network.has_incoming(y) {
                    let w = choose|w: u32| #[trigger] b.network.edge_set().contains((w, y));
                    let f = choose|f: (u32, u32)| #[trigger] a.network.edge_set().contains(f)
                        && phi[f.0] == w && phi[f.1] == y;
                    assert(a.network.node_set().contains(f.1));
                    assert(f.1 == x);
                    assert(a.network.edge_set().contains((f.0, x)));
                    assert(a.network.has_incoming(x));
                }
            }
            assert(lhs.contains(y));
        }
    }
    assert(lhs =~= rhs);
}

/// Renaming commutes with the layer unfolding, layer by layer.
proof fn lemma_relabel_layers_from(a: HTN, b: HTN, phi: Map<u32, u32>, s: Set<u32>, fuel: nat)
    requires
        a.wf(),
        b.wf(),
        relabeling_ok(a, b, phi),
        s.subset_of(a.network.node_set()),
    ensures
        b.network.layers_from(image_set(phi, s), fuel).len()
            == a.network.layers_from(s, fuel).len(),
        forall|k: int| 0 <= k < a.network.layers_from(s, fuel).len()
            ==> b.network.layers_from(image_set(phi, s), fuel)[k]
                == image_set(phi, #[trigger] a.network.layers_from(s, fuel)[k]),
    decreases fuel,
{
    if fuel == 0 {
    } else {
        let nxt_a = a.network.successors_set(s);
        let nxt_b = b.network.successors_set(image_set(phi, s));
        lemma_relabel_successors(a, b, phi, s);
        assert(nxt_b == image_set(phi, nxt_a));
        if nxt_a.is_empty() {
            assert forall|y: u32| !(#[trigger] nxt_b.contains(y)) by {
                if image_set(phi, nxt_a).contains(y) {
                    let x = choose|x: u32| nxt_a.contains(x) && #[trigger] phi[x] == y;
                }
            }
            assert(nxt_b.is_empty()) by {
                assert(nxt_b =~= Set::<u32>::empty());
            }
        } else {
            assert(!nxt_b.is_empty()) by {
                let x = choose|x: u32| nxt_a.contains(x);
                assert(nxt_b.contains(phi[x]));
            }
            assert(nxt_a.subset_of(a.network.node_set())) by {
                assert forall|y: u32| #[trigger] nxt_a.contains(y) implies
                    a.network.node_set().contains(y) by {
                    let x = choose|x: u32| s.contains(x)
                        && #[trigger] a.network.edge_set().contains((x, y));
                }
            }
            lemma_relabel_layers_from(a, b, phi, nxt_a, (fuel - 1) as nat);
            assert(a.network.layers_from(s, fuel)
                == seq![nxt_a] + a.network.layers_from(nxt_a, (fuel - 1) as nat));
            assert(b.network.layers_from(image_set(phi, s), fuel)
                == seq![nxt_b] + b.network.layers_from(nxt_b, (fuel - 1) as nat));
            assert forall|k: int| 0 <= k < a.network.layers_from(s, fuel).len() implies
                b.network.layers_from(image_set(phi, s), fuel)[k]
                    == image_set(phi, #[trigger] a.network.layers_from(s, fuel)[k]) by {
                if k == 0 {
                    assert(a.network.layers_from(s, fuel)[0] == nxt_a);
                    assert(b.network.layers_from(image_set(phi, s), fuel)[0] == nxt_b);
                } else {
                    assert(a.network.layers_from(s, fuel)[k]
                        == a.network.layers_from(nxt_a, (fuel - 1) as nat)[k - 1]);
                    assert(b.network.layers_from(image_set(phi, s), fuel)[k]
                        == b.network.layers_from(nxt_b, (fuel - 1) as nat)[k - 1]);
                }
            }
        }
    }
}

/// Isomorphism is insensitive to a uniform relabeling of node ids
/// that keeps each node's task label: a network and its relabeling
/// are isomorphic.
pub proof fn lemma_isomorphic_relabeling(a: HTN, b: HTN, phi: Map<u32, u32>)
    requires
        a.wf(),
        b.wf(),
        relabeling_ok(a, b, phi),
    ensures
        spec_isomorphic(a, b),
{
    broadcast use vstd::seq_lib::seq_to_set_is_finite;
    let u_a = a.network.unconstrained_set();
    let u_b = b.network.unconstrained_set();
    lemma_relabel_unconstrained(a, b, phi);
    assert(u_b == image_set(phi, u_a));
    assert(u_a.subset_of(a.network.node_set()));
    // the two graphs have the same number of nodes
    assert(phi.is_injective()) by {
        assert forall|x: u32, y: u32|
            x != y && phi.dom().contains(x) && phi.dom().contains(y)
            implies #[trigger] phi[x] != #[trigger] phi[y] by {
            if phi[x] == phi[y] {
                assert(a.network.node_set().contains(x) && a.network.node_set().contains(y));
            }
        }
    }
    assert(phi.dom().finite()) by {
        assert(a.network.nodes@.to_set().finite());
    }
    phi.lemma_injective_values_len();
    assert(b.network.node_set() =~= phi.values()) by {
        assert forall|y: u32| b.network.node_set().contains(y) <==>
            #[trigger] phi.values().contains(y) by {
            if b.network.node_set().contains(y) {
                let x = choose|x: u32| a.network.node_set().contains(x)
                    && #[trigger] phi[x] == y;
                assert(phi.dom().contains(x) && phi[x] == y);
            }
            if phi.values().contains(y) {
                let x = choose|x: u32| #[trigger] phi.dom().contains(x) && phi[x] == y;
                assert(a.network.node_set().contains(x));
                assert(image_set(phi, a.network.node_set()).contains(y));
            }
        }
    }
    assert(b.network.node_set().len() == a.network.node_set().len());
    lemma_relabel_layers_from(a, b, phi, u_a, a.network.node_set().len());
    let la = a.network.spec_layers();
    let lb = b.network.spec_layers();
    assert(la.len() == lb.len());
    lemma_spec_layers_subset(a.network);
    assert forall|k: int| 0 <= k < la.len() implies
        lb[k] == image_set(phi, #[trigger] la[k]) by {
        if k == 0 {
            assert(la[0] == u_a && lb[0] == u_b);
        } else {
            assert(la[k] == a.network.layers_from(u_a, a.network.node_set().len())[k - 1]);
            assert(lb[k] == b.network.layers_from(u_b, b.network.node_set().len())[k - 1]);
        }
    }
    assert forall|k: int| 0 <= k < la.len() implies
        a.layer_label_set(#[trigger] la[k]) == b.layer_label_set(lb[k]) by {
        let ll = la[k];
        assert(ll.subset_of(a.network.node_set()));
        assert forall|lab: (bool, Seq<char>)| #![all_triggers]
            a.layer_label_set(ll).contains(lab) <==> b.layer_label_set(lb[k]).contains(lab) by {
            if a.layer_label_set(ll).contains(lab) {
                let x = choose|x: u32| ll.contains(x)
                    && (#[trigger] a.task_map()[x]).label() == lab;
                assert(a.network.node_set().contains(x));
                assert(image_set(phi, ll).contains(phi[x]));
                assert(b.task_map()[phi[x]].label() == lab);
                assert(lb[k].contains(phi[x]));
            }
            if b.layer_label_set(lb[k]).contains(lab) {
                let y = choose|y: u32| lb[k].contains(y)
                    && (#[trigger] b.task_map()[y]).label() == lab;
                let x = choose|x: u32| ll.contains(x) && #[trigger] phi[x] == y;
                assert(a.network.node_set().contains(x));
                assert(a.task_map()[x].label() == b.task_map()[phi[x]].label());
            }
        }
        assert(a.layer_label_set(ll) =~= b.layer_label_set(lb[k]));
    }
}

} // verus!
