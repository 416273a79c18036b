//! The task model: primitive actions with STRIPS-style preconditions
//! and effects, compound tasks realized through decomposition methods,
//! and the applicability contract that primitive actions implement.

use vstd::prelude::*;
use crate::network::HTN;

verus! {

broadcast use {
    vstd::seq_lib::group_seq_properties,
    vstd::set::group_set_axioms,
};

/// The facts of a world state, as a set of character sequences.
pub open spec fn fact_set(v: Vec<String>) -> Set<Seq<char>> {
    v.deep_view().to_set()
}

/// Membership test of a fact in a list of facts.
pub fn state_contains(state: &Vec<String>, fact: &String) -> (b: bool)
    ensures
        b == fact_set(*state).contains(fact@),
{
    let mut i: usize = 0;
    while i < state.len()
        invariant
            i <= state@.len(),
            forall|j: int| 0 <= j < i ==> (#[trigger] state@[j])@ != fact@,
        decreases state@.len() - i,
    {
        if state[i] == *fact {
            proof {
                assert(state.deep_view()[i as int] == fact@);
                assert(state.deep_view().contains(fact@));
            }
            return true;
        }
        i += 1;
    }
    proof {
        if fact_set(*state).contains(fact@) {
            let j = choose|j: int| 0 <= j < state.deep_view().len()
                && #[trigger] state.deep_view()[j] == fact@;
            assert(state@[j]@ == fact@);
        }
    }
    false
}

/// An executable operator: a name, a precondition set, the facts it
/// adds, and the facts it deletes.
#[derive(Debug, PartialEq)]
pub struct PrimitiveAction {
    pub name: String,
    pub pre_cond: Vec<String>,
    pub add_effects: Vec<String>,
    pub del_effects: Vec<String>,
}

/// The contract a primitive task implements: test its precondition
/// against a world state, and compute the successor state.
pub trait Applicability {
    /// The precondition facts.
    spec fn pre_set(&self) -> Set<Seq<char>>;

    /// The facts added by the transition.
    spec fn add_set(&self) -> Set<Seq<char>>;

    /// The facts deleted by the transition.
    spec fn del_set(&self) -> Set<Seq<char>>;

    /// True exactly when the state is a superset of the precondition.
    fn is_applicable(&self, state: &Vec<String>) -> (b: bool)
        ensures
            b == self.pre_set().subset_of(fact_set(*state)),
    ;

    /// The successor state: the state minus the deleted facts, plus
    /// the added facts.
    fn transition(&self, state: &Vec<String>) -> (r: Vec<String>)
        ensures
            fact_set(r) == fact_set(*state).difference(self.del_set()).union(self.add_set()),
            r.deep_view().no_duplicates(),
    ;
}

impl PrimitiveAction {
    /// Packs a name, a precondition set, add effects and delete
    /// effects into a primitive action.
    pub fn new(
        name: String,
        pre_cond: Vec<String>,
        add_effects: Vec<String>,
        del_effects: Vec<String>,
    ) -> (r: Self)
        ensures
            r.name == name,
            r.pre_cond == pre_cond,
            r.add_effects == add_effects,
            r.del_effects == del_effects,
    {
        PrimitiveAction { name, pre_cond, add_effects, del_effects }
    }
}

impl Applicability for PrimitiveAction {
    open spec fn pre_set(&self) -> Set<Seq<char>> {
        fact_set(self.pre_cond)
    }

    open spec fn add_set(&self) -> Set<Seq<char>> {
        fact_set(self.add_effects)
    }

    open spec fn del_set(&self) -> Set<Seq<char>> {
        fact_set(self.del_effects)
    }

    fn is_applicable(&self, state: &Vec<String>) -> (b: bool)
        ensures
            b == self.pre_set().subset_of(fact_set(*state)),
    {
        let mut i: usize = 0;
        while i < self.pre_cond.len()
            invariant
                i <= self.pre_cond@.len(),
                forall|j: int| 0 <= j < i ==>
                    fact_set(*state).contains((#[trigger] self.pre_cond@[j])@),
            decreases self.pre_cond@.len() - i,
        {
            if !state_contains(state, &self.pre_cond[i]) {
                proof {
                    assert(self.pre_cond.deep_view()[i as int] == self.pre_cond@[i as int]@);
                    assert(self.pre_set().contains(self.pre_cond@[i as int]@));
                }
                return false;
            }
            i += 1;
        }
        proof {
            assert forall|f: Seq<char>| self.pre_set().contains(f) implies
                fact_set(*state).contains(f) by {
                let j = choose|j: int| 0 <= j < self.pre_cond.deep_view().len()
                    && #[trigger] self.pre_cond.deep_view()[j] == f;
                assert(fact_set(*state).contains(self.pre_cond@[j]@));
            }
        }
        true
    }

    fn transition(&self, state: &Vec<String>) -> (r: Vec<String>)
        ensures
            fact_set(r) == fact_set(*state).difference(self.del_set()).union(self.add_set()),
            r.deep_view().no_duplicates(),
    {
        let mut out: Vec<String> = Vec::new();
        let mut i: usize = 0;
        while i < state.len()
            invariant
                i <= state@.len(),
                out.deep_view().no_duplicates(),
                forall|f: Seq<char>| #![all_triggers] out.deep_view().contains(f) <==>
                    (state.deep_view().take(i as int).contains(f) && !self.del_set().contains(f)),
            decreases state@.len() - i,
        {
            let keep = !state_contains(&self.del_effects, &state[i])
                && !state_contains(&out, &state[i]);
            proof {
                assert(state.deep_view()[i as int] == state@[i as int]@);
            }
            if keep {
                let ghost prev = out.deep_view();
                out.push(state[i].clone());
                proof {
                    assert(out.deep_view() =~= prev.push(state@[i as int]@));
                    assert forall|f: Seq<char>| #![all_triggers] out.deep_view().contains(f)
                        == (prev.contains(f) || f == state@[i as int]@) by {
                        assert(prev.push(state@[i as int]@).contains(f)
                            == (prev.contains(f) || f == state@[i as int]@));
                    }
                    assert(out.deep_view().no_duplicates());
                }
            }
            proof {
                let sd = state.deep_view();
                assert forall|f: Seq<char>| #![all_triggers] sd.take(i + 1).contains(f) implies
                    (sd.take(i as int).contains(f) || f == sd[i as int]) by {
                    let k = choose|k: int| 0 <= k < i + 1 && #[trigger] sd.take(i + 1)[k] == f;
                    if k < i {
                        assert(sd.take(i as int)[k] == f);
                    }
                }
                assert forall|f: Seq<char>| sd.take(i as int).contains(f) implies
                    #[trigger] sd.take(i + 1).contains(f) by {
                    let k = choose|k: int| 0 <= k < i && #[trigger] sd.take(i as int)[k] == f;
                    assert(sd.take(i + 1)[k] == f);
                }
                assert(sd.take(i + 1)[i as int] == sd[i as int]);
                assert(sd.take(i + 1).contains(sd[i as int]));
            }
            i += 1;
        }
        proof {
            assert(state.deep_view().take(state.deep_view().len() as int) =~= state.deep_view());
            assert forall|f: Seq<char>| #![all_triggers] out.deep_view().contains(f) <==>
                (fact_set(*state).contains(f) && !self.del_set().contains(f)) by {
                assert(out.deep_view().contains(f) <==>
                    (state.deep_view().take(state.deep_view().len() as int).contains(f)
                        && !self.del_set().contains(f)));
            }
        }
        let ghost base = out.deep_view();
        let mut j: usize = 0;
        while j < self.add_effects.len()
            invariant
                j <= self.add_effects@.len(),
                out.deep_view().no_duplicates(),
                forall|f: Seq<char>| #![all_triggers] out.deep_view().contains(f) <==>
                    (base.contains(f)
                        || self.add_effects.deep_view().take(j as int).contains(f)),
            decreases self.add_effects@.len() - j,
        {
            let absent = !state_contains(&out, &self.add_effects[j]);
            proof {
                assert(self.add_effects.deep_view()[j as int] == self.add_effects@[j as int]@);
            }
            if absent {
                let ghost prev = out.deep_view();
                out.push(self.add_effects[j].clone());
                proof {
                    assert(out.deep_view() =~= prev.push(self.add_effects@[j as int]@));
                    assert forall|f: Seq<char>| #![all_triggers] out.deep_view().contains(f)
                        == (prev.contains(f) || f == self.add_effects@[j as int]@) by {
                        assert(prev.push(self.add_effects@[j as int]@).contains(f)
                            == (prev.contains(f) || f == self.add_effects@[j as int]@));
                    }
                    assert(out.deep_view().no_duplicates());
                }
            }
            proof {
                let ad = self.add_effects.deep_view();
                assert forall|f: Seq<char>| #![all_triggers] ad.take(j + 1).contains(f) implies
                    (ad.take(j as int).contains(f) || f == ad[j as int]) by {
                    let k = choose|k: int| 0 <= k < j + 1 && #[trigger] ad.take(j + 1)[k] == f;
                    if k < j {
                        assert(ad.take(j as int)[k] == f);
                    }
                }
                assert forall|f: Seq<char>| ad.take(j as int).contains(f) implies
                    #[trigger] ad.take(j + 1).contains(f) by {
                    let k = choose|k: int| 0 <= k < j && #[trigger] ad.take(j as int)[k] == f;
                    assert(ad.take(j + 1)[k] == f);
                }
                assert(ad.take(j + 1)[j as int] == ad[j as int]);
                assert(ad.take(j + 1).contains(ad[j as int]));
            }
            j += 1;
        }
        proof {
            let ad = self.add_effects.deep_view();
            assert(ad.take(ad.len() as int) =~= ad);
            assert forall|f: Seq<char>| #![all_triggers] out.deep_view().contains(f) <==>
                (base.contains(f) || self.add_set().contains(f)) by {
                assert(out.deep_view().contains(f) <==>
                    (base.contains(f) || ad.take(ad.len() as int).contains(f)));
            }
            assert(fact_set(out) =~=
                fact_set(*state).difference(self.del_set()).union(self.add_set()));
        }
        out
    }
}

/// An abstract task, realized only through one of its methods.
#[derive(Debug, PartialEq)]
pub struct CompoundTask {
    pub name: String,
    pub methods: Vec<Method>,
}

impl CompoundTask {
    /// Packs a name and a method list into a compound task.
    pub fn new(name: String, methods: Vec<Method>) -> (r: Self)
        ensures
            r.name == name,
            r.methods == methods,
    {
        CompoundTask { name, methods }
    }

    /// Appends one more way to decompose the task.
    pub fn add_method(&mut self, method: Method)
        ensures
            final(self).name == old(self).name,
            final(self).methods@ == old(self).methods@.push(method),
    {
        self.methods.push(method);
    }
}

/// One concrete way to decompose a compound task: a name and a
/// complete task-network fragment with its own locally scoped ids.
#[derive(Debug, PartialEq)]
pub struct Method {
    pub name: String,
    pub decomposition: HTN,
}

impl Method {
    /// Packs a name and a decomposition network into a method.
    pub fn new(name: String, decomposition: HTN) -> (r: Method)
        ensures
            r.name == name,
            r.decomposition == decomposition,
    {
        Method { name, decomposition }
    }
}

/// A task of the network: an executable operator, or an abstract task
/// that must be decomposed before anything below it can run.
/// Two tasks are equal exactly when they are the same variant and
/// carry the same name; preconditions, effects and method lists are
/// ignored, two tasks of one name standing for one abstract operator.
#[derive(Debug)]
pub enum Task {
    Primitive(PrimitiveAction),
    Compound(CompoundTask),
}

impl PartialEq for Task {
    fn eq(&self, other: &Self) -> (r: bool)
        ensures
            r == (self.label() == other.label()),
    {
        match self {
            Task::Primitive(x) => match other {
                Task::Primitive(y) => x.name == y.name,
                Task::Compound(_) => false,
            },
            Task::Compound(x) => match other {
                Task::Primitive(_) => false,
                Task::Compound(y) => x.name == y.name,
            },
        }
    }
}

impl vstd::std_specs::cmp::PartialEqSpecImpl for Task {
    open spec fn obeys_eq_spec() -> bool {
        true
    }

    open spec fn eq_spec(&self, other: &Self) -> bool {
        self.label() == other.label()
    }
}

impl Task {
    /// The task's name.
    pub open spec fn name_view(self) -> Seq<char> {
        match self {
            Task::Primitive(a) => a.name@,
            Task::Compound(c) => c.name@,
        }
    }

    /// Whether the task is the primitive variant.
    pub open spec fn is_primitive_task(self) -> bool {
        self is Primitive
    }

    /// The task's identity for structural comparison: its variant and
    /// its name.
    pub open spec fn label(self) -> (bool, Seq<char>) {
        (self.is_primitive_task(), self.name_view())
    }

    /// The task's name.
    pub fn get_name(&self) -> (r: String)
        ensures
            r@ == self.name_view(),
    {
        match self {
            Task::Compound(c) => c.name.clone(),
            Task::Primitive(a) => a.name.clone(),
        }
    }
}

} // verus!
