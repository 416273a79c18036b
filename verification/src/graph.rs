//! Directed "must precede" graph over integer node identifiers.
//!
//! A `Graph` is a value: every operation that changes it returns a new
//! graph, so many task networks can hold independent views cheaply.

use vstd::prelude::*;

verus! {

broadcast use {
    vstd::seq_lib::group_seq_properties,
    vstd::set::group_set_axioms,
    vstd::set_lib::group_set_lib_default,
};

/// A directed precedence relation: `(x, y)` in `edges` means `x` must
/// come before `y`.
#[derive(Debug, PartialEq)]
pub struct Graph {
    pub nodes: Vec<u32>,
    pub edges: Vec<(u32, u32)>,
}

/// The per-layer node sets of a sequence of node lists.
pub(crate) open spec fn layer_views(r: Seq<Vec<u32>>) -> Seq<Set<u32>> {
    Seq::new(r.len(), |k: int| r[k]@.to_set())
}

/// Membership test on a vector of node identifiers.
pub(crate) fn contains_id(v: &Vec<u32>, x: u32) -> (b: bool)
    ensures
        b == v@.contains(x),
{
    let mut i: usize = 0;
    while i < v.len()
        invariant
            i <= v.len(),
            forall|j: int| 0 <= j < i ==> v@[j] != x,
        decreases v.len() - i,
    {
        if v[i] == x {
            assert(v@.contains(x));
            return true;
        }
        i += 1;
    }
    false
}

/// Membership test on a vector of ordering pairs.
fn contains_edge(v: &Vec<(u32, u32)>, e: (u32, u32)) -> (b: bool)
    ensures
        b == v@.contains(e),
{
    let mut i: usize = 0;
    while i < v.len()
        invariant
            i <= v.len(),
            forall|j: int| 0 <= j < i ==> v@[j] != e,
        decreases v.len() - i,
    {
        if v[i].0 == e.0 && v[i].1 == e.1 {
            assert(v@[i as int] == e);
            assert(v@.contains(e));
            return true;
        }
        i += 1;
    }
    false
}

/// Copies a vector of identifiers, keeping the first occurrence of
/// each value only.
pub(crate) fn dedup_ids(v: &Vec<u32>) -> (r: Vec<u32>)
    ensures
        r@.no_duplicates(),
        r@.len() <= v@.len(),
        forall|x: u32| r@.contains(x) ==> v@.contains(x),
        forall|k: int| 0 <= k < v@.len() ==> r@.contains(#[trigger] v@[k]),
{
    let mut r: Vec<u32> = Vec::new();
    let mut i: usize = 0;
    while i < v.len()
        invariant
            i <= v.len(),
            r@.no_duplicates(),
            r@.len() <= i,
            forall|x: u32| r@.contains(x) ==> v@.contains(x),
            forall|k: int| 0 <= k < i ==> r@.contains(#[trigger] v@[k]),
        decreases v.len() - i,
    {
        let x = v[i];
        assert(v@.contains(x));
        if !contains_id(&r, x) {
            proof {
                broadcast use vstd::seq_lib::group_seq_properties;
                assert(r@.push(x).no_duplicates());
            }
            r.push(x);
        }
        proof {
            broadcast use vstd::seq_lib::group_seq_properties;
        }
        i += 1;
    }
    r
}

/// Copies a vector of ordering pairs, keeping the first occurrence of
/// each pair only.
fn dedup_edges(v: &Vec<(u32, u32)>) -> (r: Vec<(u32, u32)>)
    ensures
        r@.no_duplicates(),
        forall|e: (u32, u32)| r@.contains(e) ==> v@.contains(e),
        forall|k: int| 0 <= k < v@.len() ==> r@.contains(#[trigger] v@[k]),
{
    let mut r: Vec<(u32, u32)> = Vec::new();
    let mut i: usize = 0;
    while i < v.len()
        invariant
            i <= v.len(),
            r@.no_duplicates(),
            forall|e: (u32, u32)| r@.contains(e) ==> v@.contains(e),
            forall|k: int| 0 <= k < i ==> r@.contains(#[trigger] v@[k]),
        decreases v.len() - i,
    {
        let e = (v[i].0, v[i].1);
        assert(e == v@[i as int]);
        if !contains_edge(&r, e) {
            proof {
                broadcast use vstd::seq_lib::group_seq_properties;
                assert(r@.push(e).no_duplicates());
            }
            r.push(e);
        }
        proof {
            broadcast use vstd::seq_lib::group_seq_properties;
        }
        i += 1;
    }
    r
}

/// Copies a vector of identifiers.
fn copy_ids(v: &Vec<u32>) -> (r: Vec<u32>)
    ensures
        r@ == v@,
{
    let mut r: Vec<u32> = Vec::new();
    let mut i: usize = 0;
    while i < v.len()
        invariant
            i <= v.len(),
            r@ == v@.take(i as int),
        decreases v.len() - i,
    {
        r.push(v[i]);
        proof {
            assert(v@.take(i + 1) =~= v@.take(i as int).push(v@[i as int]));
        }
        i += 1;
    }
    proof {
        assert(v@.take(v@.len() as int) =~= v@);
    }
    r
}

/// Copies a vector of ordering pairs.
fn copy_edges(v: &Vec<(u32, u32)>) -> (r: Vec<(u32, u32)>)
    ensures
        r@ == v@,
{
    let mut r: Vec<(u32, u32)> = Vec::new();
    let mut i: usize = 0;
    while i < v.len()
        invariant
            i <= v.len(),
            r@ == v@.take(i as int),
        decreases v.len() - i,
    {
        r.push((v[i].0, v[i].1));
        proof {
            assert((v[i as int].0, v[i as int].1) == v@[i as int]);
            assert(v@.take(i + 1) =~= v@.take(i as int).push(v@[i as int]));
        }
        i += 1;
    }
    proof {
        assert(v@.take(v@.len() as int) =~= v@);
    }
    r
}

/// Appends an edge from every node of `sources` to every node of
/// `targets`.
fn push_cross(es: &mut Vec<(u32, u32)>, sources: &Vec<u32>, targets: &Vec<u32>)
    ensures
        forall|e: (u32, u32)| #![all_triggers] final(es)@.contains(e) <==>
            (old(es)@.contains(e) || (sources@.contains(e.0) && targets@.contains(e.1))),
{
    let ghost es0 = es@;
    proof {
        assert(sources@.take(0) =~= Seq::<u32>::empty());
        assert forall|y: u32| !(#[trigger] sources@.take(0).contains(y)) by {}
    }
    let mut i: usize = 0;
    while i < sources.len()
        invariant
            i <= sources@.len(),
            forall|e: (u32, u32)| #![all_triggers] es@.contains(e) <==>
                (es0.contains(e)
                    || (sources@.take(i as int).contains(e.0) && targets@.contains(e.1))),
        decreases sources@.len() - i,
    {
        let src = sources[i];
        proof {
            assert(targets@.take(0) =~= Seq::<u32>::empty());
            assert forall|y: u32| !(#[trigger] targets@.take(0).contains(y)) by {}
        }
        let mut j: usize = 0;
        while j < targets.len()
            invariant
                j <= targets@.len(),
                i < sources@.len(),
                src == sources@[i as int],
                forall|e: (u32, u32)| #![all_triggers] es@.contains(e) <==>
                    (es0.contains(e)
                        || (sources@.take(i as int).contains(e.0) && targets@.contains(e.1))
                        || (e.0 == src && targets@.take(j as int).contains(e.1))),
            decreases targets@.len() - j,
        {
            let e = (src, targets[j]);
            let ghost prev = es@;
            es.push(e);
            proof {
                broadcast use vstd::seq_lib::group_seq_properties;
                assert forall|f: (u32, u32)| #![all_triggers] es@.contains(f) == (prev.contains(f) || f == e) by {
                    assert(es@ == prev.push(e));
                    assert(prev.push(e).contains(f) == (prev.contains(f) || f == e));
                }
                assert forall|y: u32| #[trigger] targets@.take(j + 1).contains(y) implies
                    targets@.take(j as int).contains(y) || y == targets@[j as int] by {
                    let k = choose|k: int| 0 <= k < j + 1 && #[trigger] targets@.take(j + 1)[k] == y;
                    if k < j {
                        assert(targets@.take(j as int)[k] == y);
                    }
                }
                assert forall|y: u32| targets@.take(j as int).contains(y) implies
                    #[trigger] targets@.take(j + 1).contains(y) by {
                    let k = choose|k: int| 0 <= k < j && #[trigger] targets@.take(j as int)[k] == y;
                    assert(targets@.take(j + 1)[k] == y);
                }
                assert(targets@.take(j + 1)[j as int] == targets@[j as int]);
                assert(targets@.take(j + 1).contains(targets@[j as int]));
                assert(targets@.contains(targets@[j as int]));
            }
            j += 1;
        }
        proof {
            broadcast use vstd::seq_lib::group_seq_properties;
            assert(targets@.take(targets@.len() as int) =~= targets@);
            assert forall|y: u32| #[trigger] sources@.take(i + 1).contains(y) implies
                sources@.take(i as int).contains(y) || y == src by {
                let k = choose|k: int| 0 <= k < i + 1 && #[trigger] sources@.take(i + 1)[k] == y;
                if k < i {
                    assert(sources@.take(i as int)[k] == y);
                }
            }
            assert forall|y: u32| sources@.take(i as int).contains(y) implies
                #[trigger] sources@.take(i + 1).contains(y) by {
                let k = choose|k: int| 0 <= k < i && #[trigger] sources@.take(i as int)[k] == y;
                assert(sources@.take(i + 1)[k] == y);
            }
            assert(sources@.take(i + 1)[i as int] == src);
            assert(sources@.take(i + 1).contains(src));
        }
        i += 1;
    }
    proof {
        assert(sources@.take(sources@.len() as int) =~= sources@);
        assert forall|e: (u32, u32)| #![all_triggers] es@.contains(e) <==>
            (es0.contains(e) || (sources@.contains(e.0) && targets@.contains(e.1))) by {
            assert(es@.contains(e) <==>
                (es0.contains(e)
                    || (sources@.take(sources@.len() as int).contains(e.0) && targets@.contains(e.1))));
        }
    }
}

/// Appends every pair of `more`.
fn append_edge_list(es: &mut Vec<(u32, u32)>, more: &Vec<(u32, u32)>)
    ensures
        forall|e: (u32, u32)| #![all_triggers] final(es)@.contains(e) <==>
            (old(es)@.contains(e) || more@.contains(e)),
{
    let ghost es0 = es@;
    proof {
        assert(more@.take(0) =~= Seq::<(u32, u32)>::empty());
        assert forall|f: (u32, u32)| !(#[trigger] more@.take(0).contains(f)) by {}
    }
    let mut i: usize = 0;
    while i < more.len()
        invariant
            i <= more@.len(),
            forall|e: (u32, u32)| #![all_triggers] es@.contains(e) <==>
                (es0.contains(e) || more@.take(i as int).contains(e)),
        decreases more@.len() - i,
    {
        let e = (more[i].0, more[i].1);
        assert(e == more@[i as int]);
        let ghost prev = es@;
        es.push(e);
        proof {
            broadcast use vstd::seq_lib::group_seq_properties;
            assert forall|f: (u32, u32)| #![all_triggers] es@.contains(f) == (prev.contains(f) || f == e) by {
                assert(es@ == prev.push(e));
                assert(prev.push(e).contains(f) == (prev.contains(f) || f == e));
            }
            assert forall|f: (u32, u32)| #[trigger] more@.take(i + 1).contains(f) implies
                more@.take(i as int).contains(f) || f == e by {
                let k = choose|k: int| 0 <= k < i + 1 && #[trigger] more@.take(i + 1)[k] == f;
                if k < i {
                    assert(more@.take(i as int)[k] == f);
                }
            }
            assert forall|f: (u32, u32)| more@.take(i as int).contains(f) implies
                #[trigger] more@.take(i + 1).contains(f) by {
                let k = choose|k: int| 0 <= k < i && #[trigger] more@.take(i as int)[k] == f;
                assert(more@.take(i + 1)[k] == f);
            }
            assert(more@.take(i + 1)[i as int] == e);
            assert(more@.take(i + 1).contains(e));
        }
        i += 1;
    }
    proof {
        assert(more@.take(more@.len() as int) =~= more@);
        assert forall|e: (u32, u32)| #![all_triggers] es@.contains(e) <==>
            (es0.contains(e) || more@.contains(e)) by {
            assert(es@.contains(e) <==>
                (es0.contains(e) || more@.take(more@.len() as int).contains(e)));
        }
    }
}

/// Appends every identifier of `more`.
fn append_id_list(ns: &mut Vec<u32>, more: &Vec<u32>)
    ensures
        forall|x: u32| #![all_triggers] final(ns)@.contains(x) <==>
            (old(ns)@.contains(x) || more@.contains(x)),
{
    let ghost ns0 = ns@;
    proof {
        assert(more@.take(0) =~= Seq::<u32>::empty());
        assert forall|y: u32| !(#[trigger] more@.take(0).contains(y)) by {}
    }
    let mut i: usize = 0;
    while i < more.len()
        invariant
            i <= more@.len(),
            forall|x: u32| #![all_triggers] ns@.contains(x) <==>
                (ns0.contains(x) || more@.take(i as int).contains(x)),
        decreases more@.len() - i,
    {
        let x = more[i];
        let ghost prev = ns@;
        ns.push(x);
        proof {
            broadcast use vstd::seq_lib::group_seq_properties;
            assert forall|y: u32| #![all_triggers] ns@.contains(y) == (prev.contains(y) || y == x) by {
                assert(ns@ == prev.push(x));
                assert(prev.push(x).contains(y) == (prev.contains(y) || y == x));
            }
            assert forall|y: u32| #[trigger] more@.take(i + 1).contains(y) implies
                more@.take(i as int).contains(y) || y == x by {
                let k = choose|k: int| 0 <= k < i + 1 && #[trigger] more@.take(i + 1)[k] == y;
                if k < i {
                    assert(more@.take(i as int)[k] == y);
                }
            }
            assert forall|y: u32| more@.take(i as int).contains(y) implies
                #[trigger] more@.take(i + 1).contains(y) by {
                let k = choose|k: int| 0 <= k < i && #[trigger] more@.take(i as int)[k] == y;
                assert(more@.take(i + 1)[k] == y);
            }
            assert(more@.take(i + 1)[i as int] == x);
            assert(more@.take(i + 1).contains(x));
        }
        i += 1;
    }
    proof {
        assert(more@.take(more@.len() as int) =~= more@);
        assert forall|x: u32| #![all_triggers] ns@.contains(x) <==>
            (ns0.contains(x) || more@.contains(x)) by {
            assert(ns@.contains(x) <==>
                (ns0.contains(x) || more@.take(more@.len() as int).contains(x)));
        }
    }
}

/// All pairs with first component in `a` and second in `b`.
pub open spec fn cross_set(a: Set<u32>, b: Set<u32>) -> Set<(u32, u32)> {
    Set::new(|e: (u32, u32)| a.contains(e.0) && b.contains(e.1))
}

/// The members of `nodes` at which no edge of `edges` ends.
pub open spec fn unconstrained_in(nodes: Set<u32>, edges: Set<(u32, u32)>) -> Set<u32> {
    Set::new(|n: u32| nodes.contains(n) && !exists|x: u32| edges.contains((x, n)))
}

/// The members of `nodes` at which no edge of `edges` starts.
pub open spec fn terminal_in(nodes: Set<u32>, edges: Set<(u32, u32)>) -> Set<u32> {
    Set::new(|n: u32| nodes.contains(n) && !exists|y: u32| edges.contains((n, y)))
}

/// Copies a vector of distinct identifiers, leaving `id` out.
pub(crate) fn exclude_id(v: &Vec<u32>, id: u32) -> (r: Vec<u32>)
    requires
        v@.no_duplicates(),
    ensures
        r@.no_duplicates(),
        r@.to_set() == v@.to_set().remove(id),
{
    let mut r: Vec<u32> = Vec::new();
    let mut i: usize = 0;
    while i < v.len()
        invariant
            i <= v@.len(),
            v@.no_duplicates(),
            r@.no_duplicates(),
            forall|x: u32| #![all_triggers] r@.contains(x) <==>
                (v@.take(i as int).contains(x) && x != id),
        decreases v@.len() - i,
    {
        let x = v[i];
        proof {
            if v@.take(i as int).contains(x) {
                let k = choose|k: int| 0 <= k < i && #[trigger] v@.take(i as int)[k] == x;
                assert(v@[k] == v@[i as int]);
                assert(false);
            }
        }
        if x != id {
            proof {
                assert(r@.push(x).no_duplicates());
            }
            r.push(x);
        }
        proof {
            assert forall|y: u32| #[trigger] v@.take(i + 1).contains(y) implies
                (v@.take(i as int).contains(y) || y == x) by {
                let k = choose|k: int| 0 <= k < i + 1 && #[trigger] v@.take(i + 1)[k] == y;
                if k < i {
                    assert(v@.take(i as int)[k] == y);
                }
            }
            assert forall|y: u32| v@.take(i as int).contains(y) implies
                #[trigger] v@.take(i + 1).contains(y) by {
                let k = choose|k: int| 0 <= k < i && #[trigger] v@.take(i as int)[k] == y;
                assert(v@.take(i + 1)[k] == y);
            }
            assert(v@.take(i + 1)[i as int] == x);
            assert(v@.take(i + 1).contains(x));
        }
        i += 1;
    }
    proof {
        assert(v@.take(v@.len() as int) =~= v@);
        assert forall|x: u32| #![all_triggers] r@.contains(x) <==>
            (v@.contains(x) && x != id) by {
            assert(r@.contains(x) <==>
                (v@.take(v@.len() as int).contains(x) && x != id));
        }
        assert(r@.to_set() =~= v@.to_set().remove(id));
    }
    r
}

impl Graph {
    /// The set of node identifiers.
    pub open spec fn node_set(self) -> Set<u32> {
        self.nodes@.to_set()
    }

    /// The set of ordering pairs.
    pub open spec fn edge_set(self) -> Set<(u32, u32)> {
        self.edges@.to_set()
    }

    /// The backing vectors list each node and each edge once.
    pub open spec fn wf(self) -> bool {
        self.nodes@.no_duplicates() && self.edges@.no_duplicates()
    }

    /// Every edge endpoint is itself a node.
    pub open spec fn closed(self) -> bool {
        forall|e: (u32, u32)| #[trigger] self.edge_set().contains(e)
            ==> self.node_set().contains(e.0) && self.node_set().contains(e.1)
    }

    /// Builds a graph from a node list and a list of `(before, after)`
    /// pairs. Duplicate nodes and duplicate pairs are collapsed: the
    /// graph has set semantics.
    pub fn new(nodes: Vec<u32>, orderings: Vec<(u32, u32)>) -> (g: Graph)
        ensures
            g.wf(),
            g.node_set() == nodes@.to_set(),
            g.edge_set() == orderings@.to_set(),
    {
        let g = Graph { nodes: dedup_ids(&nodes), edges: dedup_edges(&orderings) };
        proof {
            broadcast use vstd::seq_lib::group_seq_properties;
            assert forall|x: u32| nodes@.contains(x) implies g.nodes@.contains(x) by {
                let k = choose|k: int| 0 <= k < nodes@.len() && nodes@[k] == x;
            }
            assert forall|e: (u32, u32)| orderings@.contains(e) implies g.edges@.contains(e) by {
                let k = choose|k: int| 0 <= k < orderings@.len() && orderings@[k] == e;
            }
            assert(g.node_set() =~= nodes@.to_set());
            assert(g.edge_set() =~= orderings@.to_set());
        }
        g
    }

    /// There is an edge ending at `n`.
    pub open spec fn has_incoming(self, n: u32) -> bool {
        exists|x: u32| self.edge_set().contains((x, n))
    }

    /// There is an edge starting at `n`.
    pub open spec fn has_outgoing(self, n: u32) -> bool {
        exists|y: u32| self.edge_set().contains((n, y))
    }

    /// The direct successors of node `id`.
    pub open spec fn successors_of(self, id: u32) -> Set<u32> {
        Set::new(|y: u32| self.edge_set().contains((id, y)))
    }

    /// The nodes that must precede `id`.
    pub open spec fn incoming_set(self, id: u32) -> Set<u32> {
        Set::new(|x: u32| self.edge_set().contains((x, id)))
    }

    /// The nodes that are the target of no edge: the ready frontier of
    /// the partial order.
    pub open spec fn unconstrained_set(self) -> Set<u32> {
        Set::new(|n: u32| self.node_set().contains(n) && !self.has_incoming(n))
    }

    /// The nodes that are the source of no edge: the exits of the
    /// partial order.
    pub open spec fn terminal_set(self) -> Set<u32> {
        Set::new(|n: u32| self.node_set().contains(n) && !self.has_outgoing(n))
    }

    /// Whether some edge ends at `n`, by a scan of the edge list.
    fn scan_has_incoming(&self, n: u32) -> (b: bool)
        ensures
            b == self.has_incoming(n),
    {
        let mut i: usize = 0;
        while i < self.edges.len()
            invariant
                i <= self.edges@.len(),
                forall|k: int| 0 <= k < i ==> (#[trigger] self.edges@[k]).1 != n,
            decreases self.edges@.len() - i,
        {
            let e = self.edges[i];
            if e.1 == n {
                proof {
                    assert(self.edges@[i as int] == (e.0, n));
                    assert(self.edges@.contains((e.0, n)));
                    assert(self.edge_set().contains((e.0, n)));
                }
                return true;
            }
            i += 1;
        }
        proof {
            broadcast use vstd::seq_lib::group_seq_properties;
            if self.has_incoming(n) {
                let x = choose|x: u32| self.edge_set().contains((x, n));
                let k = choose|k: int| 0 <= k < self.edges@.len() && self.edges@[k] == (x, n);
                assert(self.edges@[k].1 == n);
            }
        }
        false
    }

    /// Whether some edge starts at `n`, by a scan of the edge list.
    fn scan_has_outgoing(&self, n: u32) -> (b: bool)
        ensures
            b == self.has_outgoing(n),
    {
        let mut i: usize = 0;
        while i < self.edges.len()
            invariant
                i <= self.edges@.len(),
                forall|k: int| 0 <= k < i ==> (#[trigger] self.edges@[k]).0 != n,
            decreases self.edges@.len() - i,
        {
            let e = self.edges[i];
            if e.0 == n {
                proof {
                    assert(self.edges@[i as int] == (n, e.1));
                    assert(self.edges@.contains((n, e.1)));
                    assert(self.edge_set().contains((n, e.1)));
                }
                return true;
            }
            i += 1;
        }
        proof {
            broadcast use vstd::seq_lib::group_seq_properties;
            if self.has_outgoing(n) {
                let y = choose|y: u32| self.edge_set().contains((n, y));
                let k = choose|k: int| 0 <= k < self.edges@.len() && self.edges@[k] == (n, y);
                assert(self.edges@[k].0 == n);
            }
        }
        false
    }

    /// The edge list as `(before, after)` pairs.
    pub fn get_edges(&self) -> (r: Vec<(u32, u32)>)
        ensures
            r@ == self.edges@,
    {
        copy_edges(&self.edges)
    }

    /// Collapses an edge list to one without duplicate pairs.
    pub fn convert_edges_to_vec(edges: &Vec<(u32, u32)>) -> (r: Vec<(u32, u32)>)
        ensures
            r@.no_duplicates(),
            r@.to_set() == edges@.to_set(),
    {
        let r = dedup_edges(edges);
        proof {
            broadcast use vstd::seq_lib::group_seq_properties;
            assert forall|e: (u32, u32)| edges@.contains(e) implies r@.contains(e) by {
                let k = choose|k: int| 0 <= k < edges@.len() && edges@[k] == e;
            }
            assert(r@.to_set() =~= edges@.to_set());
        }
        r
    }

    /// The direct successors of `id`, or `None` if no edge starts at
    /// `id`.
    pub fn get_neighbors(&self, id: u32) -> (r: Option<Vec<u32>>)
        ensures
            r is Some <==> self.has_outgoing(id),
            r matches Some(v) ==> v@.no_duplicates() && v@.to_set() == self.successors_of(id),
    {
        let mut out: Vec<u32> = Vec::new();
        let mut i: usize = 0;
        while i < self.edges.len()
            invariant
                i <= self.edges@.len(),
                out@.no_duplicates(),
                forall|y: u32| out@.contains(y) <==>
                    exists|k: int| 0 <= k < i && #[trigger] self.edges@[k] == (id, y),
            decreases self.edges@.len() - i,
        {
            let e = self.edges[i];
            if e.0 == id && !contains_id(&out, e.1) {
                proof {
                    broadcast use vstd::seq_lib::group_seq_properties;
                    assert(out@.push(e.1).no_duplicates());
                }
                out.push(e.1);
                proof {
                    assert(self.edges@[i as int] == (id, e.1));
                }
            }
            proof {
                broadcast use vstd::seq_lib::group_seq_properties;
                assert forall|y: u32| out@.contains(y) implies
                    exists|k: int| 0 <= k < i + 1 && #[trigger] self.edges@[k] == (id, y) by {
                    if exists|k: int| 0 <= k < i && #[trigger] self.edges@[k] == (id, y) {
                        let k = choose|k: int| 0 <= k < i && #[trigger] self.edges@[k] == (id, y);
                        assert(0 <= k < i + 1 && self.edges@[k] == (id, y));
                    } else {
                        assert(self.edges@[i as int] == (id, y));
                    }
                }
            }
            i += 1;
        }
        proof {
            broadcast use vstd::seq_lib::group_seq_properties;
            assert forall|y: u32| out@.contains(y) <==> #[trigger] self.successors_of(id).contains(y) by {
                if out@.contains(y) {
                    let k = choose|k: int| 0 <= k < self.edges@.len() && #[trigger] self.edges@[k] == (id, y);
                    assert(self.edges@.contains((id, y)));
                }
                if self.successors_of(id).contains(y) {
                    let k = choose|k: int| 0 <= k < self.edges@.len() && #[trigger] self.edges@[k] == (id, y);
                }
            }
            assert(out@.to_set() =~= self.successors_of(id));
            if out@.len() > 0 {
                assert(out@.contains(out@[0]));
                let k = choose|k: int| 0 <= k < self.edges@.len() && #[trigger] self.edges@[k] == (id, out@[0]);
                assert(self.edges@.contains((id, out@[0])));
                assert(self.edge_set().contains((id, out@[0])));
                assert(self.has_outgoing(id));
            }
            if self.has_outgoing(id) {
                let y = choose|y: u32| self.edge_set().contains((id, y));
                assert(out@.contains(y));
                assert(out@.len() > 0);
            }
        }
        if out.is_empty() {
            None
        } else {
            Some(out)
        }
    }

    /// The nodes that must precede `id`.
    pub fn get_incoming_edges(&self, id: u32) -> (r: Vec<u32>)
        ensures
            r@.no_duplicates(),
            r@.to_set() == self.incoming_set(id),
    {
        let mut out: Vec<u32> = Vec::new();
        let mut i: usize = 0;
        while i < self.edges.len()
            invariant
                i <= self.edges@.len(),
                out@.no_duplicates(),
                forall|x: u32| out@.contains(x) <==>
                    exists|k: int| 0 <= k < i && #[trigger] self.edges@[k] == (x, id),
            decreases self.edges@.len() - i,
        {
            let e = self.edges[i];
            if e.1 == id && !contains_id(&out, e.0) {
                proof {
                    broadcast use vstd::seq_lib::group_seq_properties;
                    assert(out@.push(e.0).no_duplicates());
                }
                out.push(e.0);
                proof {
                    assert(self.edges@[i as int] == (e.0, id));
                }
            }
            proof {
                broadcast use vstd::seq_lib::group_seq_properties;
                assert forall|x: u32| out@.contains(x) implies
                    exists|k: int| 0 <= k < i + 1 && #[trigger] self.edges@[k] == (x, id) by {
                    if exists|k: int| 0 <= k < i && #[trigger] self.edges@[k] == (x, id) {
                        let k = choose|k: int| 0 <= k < i && #[trigger] self.edges@[k] == (x, id);
                        assert(0 <= k < i + 1 && self.edges@[k] == (x, id));
                    } else {
                        assert(self.edges@[i as int] == (x, id));
                    }
                }
            }
            i += 1;
        }
        proof {
            broadcast use vstd::seq_lib::group_seq_properties;
            assert forall|x: u32| out@.contains(x) <==> #[trigger] self.incoming_set(id).contains(x) by {
                if out@.contains(x) {
                    let k = choose|k: int| 0 <= k < self.edges@.len() && #[trigger] self.edges@[k] == (x, id);
                    assert(self.edges@.contains((x, id)));
                }
                if self.incoming_set(id).contains(x) {
                    let k = choose|k: int| 0 <= k < self.edges@.len() && #[trigger] self.edges@[k] == (x, id);
                }
            }
            assert(out@.to_set() =~= self.incoming_set(id));
        }
        out
    }

    /// The nodes that no ordering pair points at: the nodes ready to
    /// run. A node is listed exactly when it is a member of the graph
    /// and absent from every edge-target set.
    pub fn get_unconstrained_nodes(&self) -> (r: Vec<u32>)
        requires
            self.wf(),
        ensures
            r@.no_duplicates(),
            r@.to_set() == self.unconstrained_set(),
    {
        let mut out: Vec<u32> = Vec::new();
        let mut i: usize = 0;
        while i < self.nodes.len()
            invariant
                i <= self.nodes@.len(),
                self.wf(),
                out@.no_duplicates(),
                forall|n: u32| out@.contains(n) <==>
                    (#[trigger] self.nodes@.take(i as int).contains(n) && !self.has_incoming(n)),
            decreases self.nodes@.len() - i,
        {
            let n = self.nodes[i];
            proof {
                broadcast use vstd::seq_lib::group_seq_properties;
                if self.nodes@.take(i as int).contains(n) {
                    let k = choose|k: int| 0 <= k < i && #[trigger] self.nodes@.take(i as int)[k] == n;
                    assert(self.nodes@[k] == self.nodes@[i as int]);
                    assert(false);
                }
            }
            if !self.scan_has_incoming(n) {
                proof {
                    broadcast use vstd::seq_lib::group_seq_properties;
                    assert(out@.push(n).no_duplicates());
                }
                out.push(n);
            }
            proof {
                broadcast use vstd::seq_lib::group_seq_properties;
                assert(self.nodes@.take(i + 1).drop_last() =~= self.nodes@.take(i as int));
                assert(self.nodes@.take(i + 1).last() == self.nodes@[i as int]);
                assert forall|m: u32| #[trigger] self.nodes@.take(i + 1).contains(m) implies
                    self.nodes@.take(i as int).contains(m) || m == n by {
                    let k = choose|k: int| 0 <= k < i + 1 && #[trigger] self.nodes@.take(i + 1)[k] == m;
                    if k < i {
                        assert(self.nodes@.take(i as int)[k] == m);
                    }
                }
                assert forall|m: u32| self.nodes@.take(i as int).contains(m) implies
                    #[trigger] self.nodes@.take(i + 1).contains(m) by {
                    let k = choose|k: int| 0 <= k < i && #[trigger] self.nodes@.take(i as int)[k] == m;
                    assert(self.nodes@.take(i + 1)[k] == m);
                }
                assert(self.nodes@.take(i + 1).contains(n));
            }
            i += 1;
        }
        proof {
            assert(self.nodes@.take(self.nodes@.len() as int) =~= self.nodes@);
            assert forall|n: u32| out@.contains(n) <==>
                (self.nodes@.contains(n) && !self.has_incoming(n)) by {
                assert(out@.contains(n) <==>
                    (self.nodes@.take(self.nodes@.len() as int).contains(n) && !self.has_incoming(n)));
            }
            assert(out@.to_set() =~= self.unconstrained_set());
        }
        out
    }

    /// The nodes with no outgoing ordering pair.
    fn get_terminal_nodes(&self) -> (r: Vec<u32>)
        requires
            self.wf(),
        ensures
            r@.no_duplicates(),
            r@.to_set() == self.terminal_set(),
    {
        let mut out: Vec<u32> = Vec::new();
        let mut i: usize = 0;
        while i < self.nodes.len()
            invariant
                i <= self.nodes@.len(),
                self.wf(),
                out@.no_duplicates(),
                forall|n: u32| out@.contains(n) <==>
                    (#[trigger] self.nodes@.take(i as int).contains(n) && !self.has_outgoing(n)),
            decreases self.nodes@.len() - i,
        {
            let n = self.nodes[i];
            proof {
                broadcast use vstd::seq_lib::group_seq_properties;
                if self.nodes@.take(i as int).contains(n) {
                    let k = choose|k: int| 0 <= k < i && #[trigger] self.nodes@.take(i as int)[k] == n;
                    assert(self.nodes@[k] == self.nodes@[i as int]);
                    assert(false);
                }
            }
            if !self.scan_has_outgoing(n) {
                proof {
                    broadcast use vstd::seq_lib::group_seq_properties;
                    assert(out@.push(n).no_duplicates());
                }
                out.push(n);
            }
            proof {
                broadcast use vstd::seq_lib::group_seq_properties;
                assert forall|m: u32| #[trigger] self.nodes@.take(i + 1).contains(m) implies
                    self.nodes@.take(i as int).contains(m) || m == n by {
                    let k = choose|k: int| 0 <= k < i + 1 && #[trigger] self.nodes@.take(i + 1)[k] == m;
                    if k < i {
                        assert(self.nodes@.take(i as int)[k] == m);
                    }
                }
                assert forall|m: u32| self.nodes@.take(i as int).contains(m) implies
                    #[trigger] self.nodes@.take(i + 1).contains(m) by {
                    let k = choose|k: int| 0 <= k < i && #[trigger] self.nodes@.take(i as int)[k] == m;
                    assert(self.nodes@.take(i + 1)[k] == m);
                }
                assert(self.nodes@.take(i + 1).contains(n));
            }
            i += 1;
        }
        proof {
            assert(self.nodes@.take(self.nodes@.len() as int) =~= self.nodes@);
            assert forall|n: u32| out@.contains(n) <==>
                (self.nodes@.contains(n) && !self.has_outgoing(n)) by {
                assert(out@.contains(n) <==>
                    (self.nodes@.take(self.nodes@.len() as int).contains(n) && !self.has_outgoing(n)));
            }
            assert(out@.to_set() =~= self.terminal_set());
        }
        out
    }

    /// The edges that do not touch `id` at either end.
    pub open spec fn edges_avoiding(self, id: u32) -> Set<(u32, u32)> {
        Set::new(|e: (u32, u32)| self.edge_set().contains(e) && e.0 != id && e.1 != id)
    }

    /// Returns a new graph with `id` and every edge touching `id`
    /// removed; an unchanged copy when `id` is absent.
    pub fn remove_node(&self, id: u32) -> (g: Graph)
        requires
            self.wf(),
        ensures
            g.wf(),
            self.node_set().contains(id) ==> {
                &&& g.node_set() == self.node_set().remove(id)
                &&& g.node_set().len() == self.node_set().len() - 1
                &&& g.edge_set() == self.edges_avoiding(id)
                &&& forall|e: (u32, u32)| #[trigger] g.edge_set().contains(e)
                        ==> e.0 != id && e.1 != id
            },
            !self.node_set().contains(id) ==> {
                &&& g.node_set() == self.node_set()
                &&& g.edge_set() == self.edge_set()
            },
    {
        if !contains_id(&self.nodes, id) {
            let g = Graph { nodes: copy_ids(&self.nodes), edges: copy_edges(&self.edges) };
            proof {
                assert(g.node_set() =~= self.node_set());
                assert(g.edge_set() =~= self.edge_set());
            }
            g
        } else {
            let mut ns: Vec<u32> = Vec::new();
            let mut i: usize = 0;
            while i < self.nodes.len()
                invariant
                    i <= self.nodes@.len(),
                    self.wf(),
                    ns@.no_duplicates(),
                    forall|n: u32| ns@.contains(n) <==>
                        (#[trigger] self.nodes@.take(i as int).contains(n) && n != id),
                decreases self.nodes@.len() - i,
            {
                let n = self.nodes[i];
                proof {
                    broadcast use vstd::seq_lib::group_seq_properties;
                    if self.nodes@.take(i as int).contains(n) {
                        let k = choose|k: int| 0 <= k < i && #[trigger] self.nodes@.take(i as int)[k] == n;
                        assert(self.nodes@[k] == self.nodes@[i as int]);
                        assert(false);
                    }
                }
                if n != id {
                    proof {
                        broadcast use vstd::seq_lib::group_seq_properties;
                        assert(ns@.push(n).no_duplicates());
                    }
                    ns.push(n);
                }
                proof {
                    broadcast use vstd::seq_lib::group_seq_properties;
                    assert forall|m: u32| #[trigger] self.nodes@.take(i + 1).contains(m) implies
                        self.nodes@.take(i as int).contains(m) || m == n by {
                        let k = choose|k: int| 0 <= k < i + 1 && #[trigger] self.nodes@.take(i + 1)[k] == m;
                        if k < i {
                            assert(self.nodes@.take(i as int)[k] == m);
                        }
                    }
                    assert forall|m: u32| self.nodes@.take(i as int).contains(m) implies
                        #[trigger] self.nodes@.take(i + 1).contains(m) by {
                        let k = choose|k: int| 0 <= k < i && #[trigger] self.nodes@.take(i as int)[k] == m;
                        assert(self.nodes@.take(i + 1)[k] == m);
                    }
                    assert(self.nodes@.take(i + 1)[i as int] == n);
                    assert(self.nodes@.take(i + 1).contains(n));
                }
                i += 1;
            }
            let mut es: Vec<(u32, u32)> = Vec::new();
            let mut j: usize = 0;
            while j < self.edges.len()
                invariant
                    j <= self.edges@.len(),
                    self.wf(),
                    es@.no_duplicates(),
                    forall|e: (u32, u32)| es@.contains(e) <==>
                        (#[trigger] self.edges@.take(j as int).contains(e) && e.0 != id && e.1 != id),
                decreases self.edges@.len() - j,
            {
                let e = (self.edges[j].0, self.edges[j].1);
                proof {
                    broadcast use vstd::seq_lib::group_seq_properties;
                    assert(e == self.edges@[j as int]);
                    if self.edges@.take(j as int).contains(e) {
                        let k = choose|k: int| 0 <= k < j && #[trigger] self.edges@.take(j as int)[k] == e;
                        assert(self.edges@[k] == self.edges@[j as int]);
                        assert(false);
                    }
                }
                if e.0 != id && e.1 != id {
                    proof {
                        broadcast use vstd::seq_lib::group_seq_properties;
                        assert(es@.push(e).no_duplicates());
                    }
                    es.push(e);
                }
                proof {
                    broadcast use vstd::seq_lib::group_seq_properties;
                    assert forall|f: (u32, u32)| #[trigger] self.edges@.take(j + 1).contains(f) implies
                        self.edges@.take(j as int).contains(f) || f == e by {
                        let k = choose|k: int| 0 <= k < j + 1 && #[trigger] self.edges@.take(j + 1)[k] == f;
                        if k < j {
                            assert(self.edges@.take(j as int)[k] == f);
                        }
                    }
                    assert forall|f: (u32, u32)| self.edges@.take(j as int).contains(f) implies
                        #[trigger] self.edges@.take(j + 1).contains(f) by {
                        let k = choose|k: int| 0 <= k < j && #[trigger] self.edges@.take(j as int)[k] == f;
                        assert(self.edges@.take(j + 1)[k] == f);
                    }
                    assert(self.edges@.take(j + 1)[j as int] == e);
                    assert(self.edges@.take(j + 1).contains(e));
                }
                j += 1;
            }
            let g = Graph { nodes: ns, edges: es };
            proof {
                broadcast use vstd::seq_lib::group_seq_properties;
                assert(self.nodes@.take(self.nodes@.len() as int) =~= self.nodes@);
                assert(self.edges@.take(self.edges@.len() as int) =~= self.edges@);
                assert forall|n: u32| g.nodes@.contains(n) <==>
                    (self.nodes@.contains(n) && n != id) by {
                    assert(g.nodes@.contains(n) <==>
                        (self.nodes@.take(self.nodes@.len() as int).contains(n) && n != id));
                }
                assert forall|e: (u32, u32)| g.edges@.contains(e) <==>
                    (self.edges@.contains(e) && e.0 != id && e.1 != id) by {
                    assert(g.edges@.contains(e) <==>
                        (self.edges@.take(self.edges@.len() as int).contains(e) && e.0 != id && e.1 != id));
                }
                assert(g.node_set() =~= self.node_set().remove(id));
                assert(g.edge_set() =~= self.edges_avoiding(id));
                self.nodes@.unique_seq_to_set();
                g.nodes@.unique_seq_to_set();
                assert(self.node_set().remove(id).len() == self.node_set().len() - 1);
            }
            g
        }
    }

    /// The edge set after splicing `subgraph` between `incoming` and
    /// `outgoing`: the original edges, an edge from every node of
    /// `incoming` to every entry node of `subgraph`, an edge from
    /// every terminal node of `subgraph` to every node of `outgoing`,
    /// and the subgraph's own edges.
    pub open spec fn spliced_edges(
        self,
        subgraph: Graph,
        incoming: Set<u32>,
        outgoing: Set<u32>,
    ) -> Set<(u32, u32)> {
        self.edge_set().union(
            Set::new(|e: (u32, u32)| incoming.contains(e.0)
                && subgraph.unconstrained_set().contains(e.1)),
        ).union(
            Set::new(|e: (u32, u32)| subgraph.terminal_set().contains(e.0)
                && outgoing.contains(e.1)),
        ).union(subgraph.edge_set())
    }

    /// Splices `subgraph` into the graph: each node of
    /// `incoming_edges` gains an edge to each unconstrained node of
    /// `subgraph`, each terminal node of `subgraph` gains an edge to
    /// each node of `outgoing_edges`, and the subgraph's nodes and
    /// internal edges are copied verbatim.
    pub fn add_subgraph(
        &self,
        subgraph: Graph,
        incoming_edges: Vec<u32>,
        outgoing_edges: Vec<u32>,
    ) -> (g: Graph)
        requires
            self.wf(),
            subgraph.wf(),
        ensures
            g.wf(),
            g.node_set() == self.node_set().union(subgraph.node_set()),
            g.edge_set() == self.spliced_edges(
                subgraph,
                incoming_edges@.to_set(),
                outgoing_edges@.to_set(),
            ),
    {
        let mut es = copy_edges(&self.edges);
        let entries = subgraph.get_unconstrained_nodes();
        push_cross(&mut es, &incoming_edges, &entries);
        let terminals = subgraph.get_terminal_nodes();
        push_cross(&mut es, &terminals, &outgoing_edges);
        append_edge_list(&mut es, &subgraph.edges);
        let mut ns = copy_ids(&self.nodes);
        append_id_list(&mut ns, &subgraph.nodes);
        let ghost ns_seq = ns@;
        let ghost es_seq = es@;
        let g = Graph::new(ns, es);
        proof {
            assert forall|x: u32| g.node_set().contains(x) <==>
                #[trigger] self.node_set().union(subgraph.node_set()).contains(x) by {
                assert(g.node_set().contains(x) == ns_seq.contains(x));
                assert(ns_seq.contains(x) == (self.nodes@.contains(x) || subgraph.nodes@.contains(x)));
                assert(self.node_set().contains(x) == self.nodes@.contains(x));
                assert(subgraph.node_set().contains(x) == subgraph.nodes@.contains(x));
                assert(self.node_set().union(subgraph.node_set()).contains(x)
                    == (self.node_set().contains(x) || subgraph.node_set().contains(x)));
            }
            assert(g.node_set() =~= self.node_set().union(subgraph.node_set()));
            let spliced = self.spliced_edges(
                subgraph,
                incoming_edges@.to_set(),
                outgoing_edges@.to_set(),
            );
            assert forall|e: (u32, u32)| g.edge_set().contains(e) <==>
                #[trigger] spliced.contains(e) by {
                assert(g.edge_set().contains(e) == es_seq.contains(e));
                assert(entries@.contains(e.1) == subgraph.unconstrained_set().contains(e.1));
                assert(terminals@.contains(e.0) == subgraph.terminal_set().contains(e.0));
            }
            assert(g.edge_set() =~= spliced);
        }
        g
    }

    /// The set of direct successors of the nodes in `s`.
    pub open spec fn successors_set(self, s: Set<u32>) -> Set<u32> {
        Set::new(|y: u32| exists|x: u32| s.contains(x) && #[trigger] self.edge_set().contains((x, y)))
    }

    /// The layers that follow `cur`, unfolded at most `fuel` times:
    /// each layer is the set of direct successors of the one before
    /// it, and the sequence stops before a layer that would be empty.
    pub open spec fn layers_from(self, cur: Set<u32>, fuel: nat) -> Seq<Set<u32>>
        decreases fuel,
    {
        if fuel == 0 {
            Seq::empty()
        } else {
            let nxt = self.successors_set(cur);
            if nxt.is_empty() {
                Seq::empty()
            } else {
                seq![nxt] + self.layers_from(nxt, (fuel - 1) as nat)
            }
        }
    }

    /// The layer decomposition of the graph: layer 0 is the
    /// unconstrained set; layer `k + 1` is the set of direct
    /// successors of layer `k`; the sequence stops before a layer
    /// that would be empty, and in any case after as many layers as
    /// the graph has nodes.
    pub open spec fn spec_layers(self) -> Seq<Set<u32>> {
        seq![self.unconstrained_set()] + self.layers_from(self.unconstrained_set(), self.node_set().len())
    }

    /// Collects the direct successors of the nodes listed in `cur`.
    fn successors_vec(&self, cur: &Vec<u32>) -> (r: Vec<u32>)
        ensures
            r@.no_duplicates(),
            r@.to_set() == self.successors_set(cur@.to_set()),
    {
        let mut out: Vec<u32> = Vec::new();
        let mut i: usize = 0;
        while i < self.edges.len()
            invariant
                i <= self.edges@.len(),
                out@.no_duplicates(),
                forall|y: u32| #![all_triggers] out@.contains(y) <==>
                    exists|k: int| 0 <= k < i && #[trigger] self.edges@[k].1 == y
                        && cur@.contains(self.edges@[k].0),
            decreases self.edges@.len() - i,
        {
            let e = self.edges[i];
            if contains_id(cur, e.0) && !contains_id(&out, e.1) {
                proof {
                    assert(out@.push(e.1).no_duplicates());
                }
                out.push(e.1);
                proof {
                    assert(self.edges@[i as int].1 == e.1 && cur@.contains(self.edges@[i as int].0));
                }
            }
            proof {
                assert forall|y: u32| #![all_triggers] out@.contains(y) implies
                    exists|k: int| 0 <= k < i + 1 && #[trigger] self.edges@[k].1 == y
                        && cur@.contains(self.edges@[k].0) by {
                    if exists|k: int| 0 <= k < i && #[trigger] self.edges@[k].1 == y
                        && cur@.contains(self.edges@[k].0) {
                        let k = choose|k: int| 0 <= k < i && #[trigger] self.edges@[k].1 == y
                            && cur@.contains(self.edges@[k].0);
                        assert(0 <= k < i + 1 && self.edges@[k].1 == y && cur@.contains(self.edges@[k].0));
                    } else {
                        assert(self.edges@[i as int].1 == y && cur@.contains(self.edges@[i as int].0));
                    }
                }
            }
            i += 1;
        }
        proof {
            assert forall|y: u32| #![all_triggers] out@.contains(y) <==>
                self.successors_set(cur@.to_set()).contains(y) by {
                if out@.contains(y) {
                    let k = choose|k: int| 0 <= k < self.edges@.len() && #[trigger] self.edges@[k].1 == y
                        && cur@.contains(self.edges@[k].0);
                    let x = self.edges@[k].0;
                    assert(self.edges@.contains((x, y)));
                    assert(cur@.to_set().contains(x) && self.edge_set().contains((x, y)));
                }
                if self.successors_set(cur@.to_set()).contains(y) {
                    let x = choose|x: u32| cur@.to_set().contains(x) && #[trigger] self.edge_set().contains((x, y));
                    let k = choose|k: int| 0 <= k < self.edges@.len() && self.edges@[k] == (x, y);
                    assert(0 <= k < self.edges@.len() && self.edges@[k].1 == y && cur@.contains(self.edges@[k].0));
                }
            }
            assert(out@.to_set() =~= self.successors_set(cur@.to_set()));
        }
        out
    }

    /// The Kahn-style layer decomposition, as concrete node lists.
    pub fn to_layers(&self) -> (r: Vec<Vec<u32>>)
        requires
            self.wf(),
        ensures
            r@.len() == self.spec_layers().len(),
            forall|k: int| 0 <= k < r@.len() ==>
                (#[trigger] r@[k])@.to_set() == self.spec_layers()[k] && r@[k]@.no_duplicates(),
    {
        let first = self.get_unconstrained_nodes();
        let mut prev = copy_ids(&first);
        let mut result: Vec<Vec<u32>> = Vec::new();
        result.push(first);
        let mut fuel: usize = self.nodes.len();
        proof {
            self.nodes@.unique_seq_to_set();
            assert(layer_views(result@) =~= seq![self.unconstrained_set()]);
            assert(self.spec_layers() == layer_views(result@) + self.layers_from(prev@.to_set(), fuel as nat));
        }
        while fuel > 0
            invariant
                self.wf(),
                prev@.no_duplicates(),
                fuel <= self.nodes@.len(),
                self.spec_layers() == layer_views(result@) + self.layers_from(prev@.to_set(), fuel as nat),
                forall|k: int| 0 <= k < result@.len() ==> (#[trigger] result@[k])@.no_duplicates(),
            ensures
                self.spec_layers() == layer_views(result@),
                forall|k: int| 0 <= k < result@.len() ==> (#[trigger] result@[k])@.no_duplicates(),
            decreases fuel,
        {
            let ghost p = prev@.to_set();
            let layer = self.successors_vec(&prev);
            if layer.is_empty() {
                proof {
                    assert forall|y: u32| !(#[trigger] self.successors_set(p).contains(y)) by {
                        if self.successors_set(p).contains(y) {
                            assert(layer@.to_set().contains(y));
                            assert(layer@.contains(y));
                        }
                    }
                    assert(self.successors_set(p).is_empty());
                    assert(self.layers_from(p, fuel as nat) == Seq::<Set<u32>>::empty());
                    assert(self.spec_layers() == layer_views(result@) + Seq::<Set<u32>>::empty());
                    assert(layer_views(result@) + Seq::<Set<u32>>::empty() =~= layer_views(result@));
                }
                break;
            }
            proof {
                assert(layer@.contains(layer@[0]));
                assert(layer@.to_set().contains(layer@[0]));
                assert(!self.successors_set(p).is_empty());
                assert(self.layers_from(p, fuel as nat)
                    == seq![self.successors_set(p)] + self.layers_from(self.successors_set(p), (fuel - 1) as nat));
            }
            let next_prev = copy_ids(&layer);
            let ghost old_result = result@;
            result.push(layer);
            prev = next_prev;
            proof {
                assert(layer_views(result@) =~= layer_views(old_result) + seq![prev@.to_set()]);
                assert((layer_views(old_result) + seq![prev@.to_set()])
                    + self.layers_from(prev@.to_set(), (fuel - 1) as nat)
                    =~= layer_views(old_result)
                        + (seq![prev@.to_set()] + self.layers_from(prev@.to_set(), (fuel - 1) as nat)));
            }
            fuel -= 1;
        }
        proof {
            assert forall|k: int| 0 <= k < result@.len() implies
                (#[trigger] result@[k])@.to_set() == self.spec_layers()[k] by {
                assert(self.spec_layers()[k] == layer_views(result@)[k]);
            }
        }
        result
    }

    /// The number of nodes.
    pub fn count_nodes(&self) -> (n: usize)
        requires
            self.wf(),
        ensures
            n == self.node_set().len(),
    {
        proof {
            self.nodes@.unique_seq_to_set();
        }
        self.nodes.len()
    }
}

} // verus!
