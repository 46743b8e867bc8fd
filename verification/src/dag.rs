//! A partial order kept as a directed acyclic graph over numbered elements.

use crate::graph::{
    graph_add_edge, graph_add_node, graph_clone, graph_edges, graph_new, graph_nodes, search_limit,
    search_new, search_next, search_pending, search_seen, search_step, Graph,
};
use crate::order::FinPartOrd;
use crate::relation::{
    acyclic, lemma_acyclic_after_insert, lemma_closed_region, lemma_fact_precedes,
    lemma_precedes_image, lemma_precedes_mentions, lemma_precedes_transitive, le, mentions,
    precedes,
};
use std::collections::HashMap;
use std::hash::Hash;
use vstd::laws_eq::obeys_concrete_eq;
use vstd::prelude::*;
use vstd::set_lib::{lemma_int_range, lemma_len_subset, set_int_range};
use vstd::std_specs::hash::obeys_key_model;

verus! {

/// `ids` numbers the known elements: each gets a node below `nodes`, no two
/// get the same node, and every node is the node of some element.
spec fn numbering<T>(ids: Map<T, usize>, nodes: nat) -> bool {
    &&& forall|k: T| #[trigger] ids.contains_key(k) ==> ids[k] < nodes
    &&& forall|k1: T, k2: T|
        #[trigger] ids.contains_key(k1) && #[trigger] ids.contains_key(k2) && ids[k1] == ids[k2]
            ==> k1 == k2
    &&& forall|i: int|
        0 <= i < nodes ==> ids.contains_key(#[trigger] element_at(ids, i)) && ids[element_at(
            ids,
            i,
        )] == i
}

/// The element that `ids` numbers `i`.
spec fn element_at<T>(ids: Map<T, usize>, i: int) -> T {
    choose|k: T| ids.contains_key(k) && ids[k] == i
}

/// Every edge joins two nodes below `nodes`.
spec fn edges_inside(edges: Set<(int, int)>, nodes: nat) -> bool {
    forall|a: int, b: int| #[trigger] edges.contains((a, b)) ==> 0 <= a < nodes && 0 <= b < nodes
}

/// Every node below `nodes` is an end of some edge.
spec fn nodes_touched(edges: Set<(int, int)>, nodes: nat) -> bool {
    forall|i: int| 0 <= i < nodes ==> #[trigger] mentions(edges, i)
}

/// The facts that a graph over numbered elements stands for: one for every
/// edge, between the elements of its two ends.
spec fn facts_of<T>(ids: Map<T, usize>, edges: Set<(int, int)>) -> Set<(T, T)> {
    Set::new(
        |f: (T, T)|
            ids.contains_key(f.0) && ids.contains_key(f.1) && edges.contains(
                (ids[f.0] as int, ids[f.1] as int),
            ),
    )
}

/// A chain of facts is a path in the graph.
proof fn lemma_path_of_chain<T>(ids: Map<T, usize>, edges: Set<(int, int)>, lo: T, hi: T)
    requires
        precedes(facts_of(ids, edges), lo, hi),
    ensures
        ids.contains_key(lo),
        ids.contains_key(hi),
        precedes(edges, ids[lo] as int, ids[hi] as int),
{
    let facts = facts_of(ids, edges);
    lemma_precedes_mentions(facts, lo, hi);
    lemma_precedes_image(facts, edges, |k: T| ids[k] as int, lo, hi);
}

/// A path in the graph is a chain of facts.
proof fn lemma_chain_of_path<T>(
    ids: Map<T, usize>,
    nodes: nat,
    edges: Set<(int, int)>,
    a: int,
    b: int,
)
    requires
        numbering(ids, nodes),
        edges_inside(edges, nodes),
        precedes(edges, a, b),
    ensures
        0 <= a < nodes,
        0 <= b < nodes,
        precedes(facts_of(ids, edges), element_at(ids, a), element_at(ids, b)),
{
    let facts = facts_of(ids, edges);
    lemma_precedes_mentions(edges, a, b);
    assert forall|s: int, t: int| #[trigger] edges.contains((s, t)) implies facts.contains(
        (element_at(ids, s), element_at(ids, t)),
    ) by {
        assert(ids.contains_key(element_at(ids, s)));
        assert(ids.contains_key(element_at(ids, t)));
    }
    lemma_precedes_image(edges, facts, |i: int| element_at(ids, i), a, b);
}

/// Between known elements the order of the facts is the reachability of the
/// graph.
proof fn lemma_order_is_reachability<T>(
    ids: Map<T, usize>,
    nodes: nat,
    edges: Set<(int, int)>,
    lo: T,
    hi: T,
)
    requires
        numbering(ids, nodes),
        edges_inside(edges, nodes),
        ids.contains_key(lo),
        ids.contains_key(hi),
    ensures
        precedes(facts_of(ids, edges), lo, hi) <==> precedes(edges, ids[lo] as int, ids[hi] as int),
{
    if precedes(facts_of(ids, edges), lo, hi) {
        lemma_path_of_chain(ids, edges, lo, hi);
    }
    if precedes(edges, ids[lo] as int, ids[hi] as int) {
        lemma_chain_of_path(ids, nodes, edges, ids[lo] as int, ids[hi] as int);
        assert(ids.contains_key(element_at(ids, ids[lo] as int)));
        assert(ids.contains_key(element_at(ids, ids[hi] as int)));
    }
}

/// An element is known exactly if a fact names it, provided that every node
/// is an end of some edge.
proof fn lemma_known_is_mentioned<T>(
    ids: Map<T, usize>,
    nodes: nat,
    edges: Set<(int, int)>,
    x: T,
)
    requires
        numbering(ids, nodes),
        edges_inside(edges, nodes),
        nodes_touched(edges, nodes),
    ensures
        ids.contains_key(x) <==> mentions(facts_of(ids, edges), x),
{
    let facts = facts_of(ids, edges);
    if ids.contains_key(x) {
        let i = ids[x] as int;
        assert(mentions(edges, i));
        let j = choose|j: int| edges.contains((i, j)) || edges.contains((j, i));
        let y = element_at(ids, j);
        assert(ids.contains_key(y) && ids[y] == j);
        if edges.contains((i, j)) {
            assert(facts.contains((x, y)));
        } else {
            assert(facts.contains((y, x)));
        }
    }
}

/// One more element, numbered with the next free node, keeps a numbering.
proof fn lemma_numbering_grows<T>(ids: Map<T, usize>, nodes: nat, x: T)
    requires
        numbering(ids, nodes),
        !ids.contains_key(x),
        nodes < usize::MAX,
    ensures
        numbering(ids.insert(x, nodes as usize), nodes + 1),
{
    let more = ids.insert(x, nodes as usize);
    assert forall|i: int| 0 <= i < nodes + 1 implies more.contains_key(
        #[trigger] element_at(more, i),
    ) && more[element_at(more, i)] == i by {
        if i < nodes {
            let k = element_at(ids, i);
            assert(ids.contains_key(k));
            assert(more.contains_key(k) && more[k] == i);
        } else {
            assert(more.contains_key(x) && more[x] == i);
        }
    }
}

/// What the graph stands for once `lo` and `hi` have their nodes and before
/// the edge between them is asked for.
///
/// `ids0` is the numbering before and `ids1` the one after: it has at most
/// `lo` and `hi` more, on nodes that no edge touches yet. The edge would
/// close a cycle exactly if `hi` precedes `lo` already, and once it is there
/// the graph stands for the facts before and `(lo, hi)`.
proof fn lemma_link<T>(
    ids0: Map<T, usize>,
    nodes0: nat,
    ids1: Map<T, usize>,
    nodes1: nat,
    edges: Set<(int, int)>,
    lo: T,
    hi: T,
)
    requires
        numbering(ids0, nodes0),
        numbering(ids1, nodes1),
        nodes0 <= nodes1,
        edges_inside(edges, nodes0),
        nodes_touched(edges, nodes0),
        forall|k: T| #[trigger] ids0.contains_key(k) ==> ids1.contains_key(k) && ids1[k] == ids0[k],
        forall|k: T|
            #[trigger] ids1.contains_key(k) && !ids0.contains_key(k) ==> (k == lo || k == hi)
                && ids1[k] >= nodes0,
        ids1.contains_key(lo),
        ids1.contains_key(hi),
        lo != hi,
    ensures
        ids1[lo] != ids1[hi],
        precedes(edges, ids1[hi] as int, ids1[lo] as int) <==> precedes(
            facts_of(ids0, edges),
            hi,
            lo,
        ),
        facts_of(ids1, edges.insert((ids1[lo] as int, ids1[hi] as int))) == facts_of(
            ids0,
            edges,
        ).insert((lo, hi)),
        edges_inside(edges.insert((ids1[lo] as int, ids1[hi] as int)), nodes1),
        nodes_touched(edges.insert((ids1[lo] as int, ids1[hi] as int)), nodes1),
{
    let a = ids1[lo] as int;
    let b = ids1[hi] as int;
    let facts0 = facts_of(ids0, edges);
    let more = edges.insert((a, b));
    if precedes(facts0, hi, lo) {
        lemma_path_of_chain(ids0, edges, hi, lo);
    }
    if precedes(edges, b, a) {
        lemma_chain_of_path(ids0, nodes0, edges, b, a);
        assert(ids0.contains_key(hi));
        assert(ids0.contains_key(lo));
        assert(ids0.contains_key(element_at(ids0, b)));
        assert(ids0.contains_key(element_at(ids0, a)));
    }
    assert forall|f: (T, T)| facts_of(ids1, more).contains(f) <==> facts0.insert((lo, hi)).contains(
        f,
    ) by {
        if facts_of(ids1, more).contains(f) && f != (lo, hi) {
            assert(ids1.contains_key(f.0) && ids1.contains_key(f.1));
            assert(edges.contains((ids1[f.0] as int, ids1[f.1] as int)));
            assert(ids0.contains_key(f.0));
            assert(ids0.contains_key(f.1));
        }
        if facts0.contains(f) {
            assert(ids0.contains_key(f.0) && ids0.contains_key(f.1));
        }
    }
    assert(facts_of(ids1, more) =~= facts0.insert((lo, hi)));
    assert forall|i: int| 0 <= i < nodes1 implies #[trigger] mentions(more, i) by {
        if i < nodes0 {
            assert(mentions(edges, i));
            let j = choose|j: int| edges.contains((i, j)) || edges.contains((j, i));
            if edges.contains((i, j)) {
                assert(more.contains((i, j)));
            } else {
                assert(more.contains((j, i)));
            }
        } else {
            let k = element_at(ids1, i);
            assert(ids1.contains_key(k) && ids1[k] == i);
            assert(!ids0.contains_key(k));
            if k == lo {
                assert(more.contains((i, b)));
            } else {
                assert(more.contains((a, i)));
            }
        }
    }
}

/// The state of a search of the graph from `start` that has not met `goal`:
/// what is pending or seen can be reached from `start`, `start` is among it,
/// and whatever follows a seen node is seen or pending.
spec fn sweeping(
    edges: Set<(int, int)>,
    nodes: nat,
    start: int,
    goal: int,
    pending: Set<int>,
    seen: Set<int>,
) -> bool {
    &&& forall|s: int| #[trigger] pending.contains(s) ==> 0 <= s < nodes
    &&& forall|s: int| #[trigger] seen.contains(s) ==> 0 <= s < nodes
    &&& forall|s: int| #[trigger] pending.contains(s) ==> le(edges, start, s)
    &&& forall|s: int| #[trigger] seen.contains(s) ==> le(edges, start, s)
    &&& pending.contains(start) || seen.contains(start)
    &&& forall|s: int, t: int|
        seen.contains(s) && #[trigger] edges.contains((s, t)) ==> seen.contains(t)
            || pending.contains(t)
    &&& !seen.contains(goal)
}

/// The seen nodes of a search are finitely many, no more than the graph has.
proof fn lemma_seen_bounded(nodes: nat, seen: Set<int>)
    requires
        forall|s: int| #[trigger] seen.contains(s) ==> 0 <= s < nodes,
    ensures
        seen.finite(),
        seen.len() <= nodes,
{
    lemma_int_range(0, nodes as int);
    lemma_len_subset(seen, set_int_range(0, nodes as int));
}

/// A step that hands out a node: the node can be reached from `start`, and
/// unless it is `goal` the search goes on with one more node seen.
proof fn lemma_sweep_step(
    edges: Set<(int, int)>,
    nodes: nat,
    start: int,
    goal: int,
    pending0: Set<int>,
    seen0: Set<int>,
    node: usize,
    pending1: Set<int>,
    seen1: Set<int>,
)
    requires
        edges_inside(edges, nodes),
        sweeping(edges, nodes, start, goal, pending0, seen0),
        search_step(edges, pending0, seen0, Some(node), pending1, seen1),
    ensures
        le(edges, start, node as int),
        node != goal ==> sweeping(edges, nodes, start, goal, pending1, seen1),
        seen1.finite(),
        seen1.len() == seen0.len() + 1,
        seen1.len() <= nodes,
{
    let n = node as int;
    lemma_seen_bounded(nodes, seen0);
    lemma_seen_bounded(nodes, seen1);
    assert forall|s: int| #[trigger] pending1.contains(s) implies le(edges, start, s) by {
        if !pending0.contains(s) {
            lemma_fact_precedes(edges, n, s);
            if start != n {
                lemma_precedes_transitive(edges, start, n, s);
            }
        }
    }
}

/// A step that hands out nothing ends a search that has not met `goal`:
/// `goal` cannot be reached from `start`.
proof fn lemma_sweep_done(
    edges: Set<(int, int)>,
    nodes: nat,
    start: int,
    goal: int,
    pending0: Set<int>,
    seen0: Set<int>,
    pending1: Set<int>,
    seen1: Set<int>,
)
    requires
        sweeping(edges, nodes, start, goal, pending0, seen0),
        search_step(edges, pending0, seen0, None, pending1, seen1),
    ensures
        !le(edges, start, goal),
{
    assert(seen0.contains(start));
    if precedes(edges, start, goal) {
        assert forall|s: int, t: int| seen0.contains(s) && #[trigger] edges.contains(
            (s, t),
        ) implies seen0.contains(t) by {
            assert(seen0.contains(t) || pending0.contains(t));
        }
        lemma_closed_region(edges, seen0, start, goal);
    }
}

/// A finite partial order stored as a directed acyclic graph.
///
/// Every element that a fact names has a node, and every fact is an edge.
/// The graph itself refuses an edge that would close a cycle, so nothing is
/// ever stored that would break antisymmetry. A query is a depth-first search
/// of the graph. Elements need `==`, a hash and `clone`.
#[derive(Debug)]
pub struct DagPartOrd<T> {
    /// The shape: node `i` stands for the element with label `i`.
    dag: Graph,
    /// The element of each node, in the order of the nodes.
    labels: Vec<T>,
    /// The node of each element.
    ids: HashMap<T, usize>,
}

/// The answer to a fact that would close a cycle.
#[derive(Clone, Debug, PartialEq, Eq, PartialOrd, Ord, Hash)]
pub struct CycleError;

impl<T> DagPartOrd<T> where T: Clone, T: Eq, T: Hash {
    /// The number of elements that the facts name.
    pub closed spec fn node_count(&self) -> nat {
        graph_nodes(self.dag)
    }

    /// The number of stored facts. A fact that was declared twice counts
    /// twice.
    pub closed spec fn fact_count(&self) -> nat {
        graph_edges(self.dag).len()
    }

    /// The node of each element that a fact names.
    spec fn numbers(&self) -> Map<T, usize> {
        self.ids@
    }

    /// The edges of the graph.
    spec fn edges(&self) -> Set<(int, int)> {
        graph_edges(self.dag).to_set()
    }

    /// The invariant but for one thing: a node may still be without an edge.
    /// This is the state between giving an element its node and adding the
    /// edge that the node is for.
    spec fn numbered(&self) -> bool {
        &&& obeys_key_model::<T>()
        &&& obeys_concrete_eq::<T>()
        &&& self.node_count() <= u32::MAX
        &&& self.fact_count() <= u32::MAX
        &&& self.labels@.len() == self.node_count()
        &&& numbering(self.numbers(), self.node_count())
        &&& edges_inside(self.edges(), self.node_count())
        &&& acyclic(self.edges())
    }

    /// The node of `x`, which gets the next free node if it has none yet.
    fn intern(&mut self, x: T) -> (node: usize)
        requires
            old(self).numbered(),
            old(self).node_count() < u32::MAX,
        ensures
            final(self).numbered(),
            graph_edges(final(self).dag) == graph_edges(old(self).dag),
            final(self).numbers().contains_key(x),
            final(self).numbers()[x] == node,
            old(self).numbers().contains_key(x) ==> {
                &&& final(self).numbers() == old(self).numbers()
                &&& final(self).node_count() == old(self).node_count()
            },
            !old(self).numbers().contains_key(x) ==> {
                &&& final(self).numbers() == old(self).numbers().insert(x, node)
                &&& node == old(self).node_count()
                &&& final(self).node_count() == old(self).node_count() + 1
            },
    {
        match self.ids.get(&x) {
            Some(node) => *node,
            None => {
                proof {
                    lemma_numbering_grows(self.numbers(), self.node_count(), x);
                }
                let node = graph_add_node(&mut self.dag);
                self.labels.push(x.clone());
                self.ids.insert(x, node);
                node
            },
        }
    }

    /// Whether the depth-first search from `start` meets `goal`: whether
    /// `goal` is `start` or some path leads from `start` to `goal`.
    fn reaches(&self, start: usize, goal: usize) -> (found: bool)
        requires
            self.numbered(),
            start < self.node_count(),
        ensures
            found == le(self.edges(), start as int, goal as int),
    {
        let ghost edges = self.edges();
        let ghost nodes = self.node_count();
        let mut dfs = search_new(&self.dag, start);
        proof {
            lemma_seen_bounded(nodes, search_seen(dfs));
        }
        loop
            invariant
                edges == graph_edges(self.dag).to_set(),
                edges_inside(edges, nodes),
                search_limit(dfs) == nodes,
                sweeping(
                    edges,
                    nodes,
                    start as int,
                    goal as int,
                    search_pending(dfs),
                    search_seen(dfs),
                ),
                search_seen(dfs).finite(),
                search_seen(dfs).len() <= nodes,
            decreases nodes - search_seen(dfs).len(),
        {
            let ghost pending0 = search_pending(dfs);
            let ghost seen0 = search_seen(dfs);
            match search_next(&mut dfs, &self.dag) {
                Some(n) => {
                    proof {
                        lemma_sweep_step(
                            edges,
                            nodes,
                            start as int,
                            goal as int,
                            pending0,
                            seen0,
                            n,
                            search_pending(dfs),
                            search_seen(dfs),
                        );
                    }
                    if n == goal {
                        return true;
                    }
                },
                None => {
                    proof {
                        lemma_sweep_done(
                            edges,
                            nodes,
                            start as int,
                            goal as int,
                            pending0,
                            seen0,
                            search_pending(dfs),
                            search_seen(dfs),
                        );
                    }
                    return false;
                },
            }
        }
    }
}

impl<T> Clone for DagPartOrd<T> where T: Clone, T: Eq, T: Hash {
    /// A copy with storage of its own that stands for the same facts.
    fn clone(&self) -> (copy: Self)
        ensures
            self.wf() ==> copy.wf(),
            copy.facts() == self.facts(),
            copy.node_count() == self.node_count(),
            copy.fact_count() == self.fact_count(),
    {
        DagPartOrd {
            dag: graph_clone(&self.dag),
            labels: self.labels.clone(),
            ids: self.ids.clone(),
        }
    }
}

impl<T> FinPartOrd<T> for DagPartOrd<T> where T: Clone, T: Eq, T: Hash {
    type Error = CycleError;

    open spec fn elements_ok() -> bool {
        obeys_key_model::<T>() && obeys_concrete_eq::<T>()
    }

    closed spec fn wf(&self) -> bool {
        self.numbered() && nodes_touched(self.edges(), self.node_count())
    }

    closed spec fn facts(&self) -> Set<(T, T)> {
        facts_of(self.numbers(), self.edges())
    }

    /// The graph numbers its nodes and its edges with `u32`; a fact may need
    /// two new nodes and one new edge.
    open spec fn has_room(&self) -> bool {
        self.node_count() + 2 <= u32::MAX && self.fact_count() < u32::MAX
    }

    proof fn lemma_facts_acyclic(&self) {
        let facts = self.facts();
        assert forall|x: T| !#[trigger] precedes(facts, x, x) by {
            if precedes(facts, x, x) {
                lemma_path_of_chain(self.numbers(), self.edges(), x, x);
            }
        }
    }

    fn empty() -> (fpo: Self)
        ensures
            fpo.node_count() == 0,
            fpo.fact_count() == 0,
    {
        let fpo = DagPartOrd { dag: graph_new(), labels: Vec::new(), ids: HashMap::new() };
        proof {
            assert(fpo.edges() =~= Set::<(int, int)>::empty());
            assert(fpo.facts() =~= Set::<(T, T)>::empty());
            assert forall|x: int| !#[trigger] precedes(fpo.edges(), x, x) by {
                if precedes(fpo.edges(), x, x) {
                    lemma_precedes_mentions(fpo.edges(), x, x);
                }
            }
        }
        fpo
    }

    /// Gives `lo` and `hi` their nodes and asks the graph for the edge.
    fn add(self, lo: T, hi: T) -> (res: Result<Self, CycleError>)
        ensures
            res matches Ok(fpo) ==> {
                &&& lo == hi ==> fpo.node_count() == self.node_count() && fpo.fact_count()
                    == self.fact_count()
                &&& lo != hi ==> fpo.node_count() <= self.node_count() + 2 && fpo.fact_count()
                    == self.fact_count() + 1
            },
    {
        proof {
            reveal(obeys_concrete_eq);
        }
        if lo == hi {
            return Ok(self);
        }
        let ghost ids0 = self.numbers();
        let ghost nodes0 = self.node_count();
        let ghost edges0 = graph_edges(self.dag);
        let ghost (lo0, hi0) = (lo, hi);
        let mut fpo = self;
        let lo_idx = fpo.intern(lo);
        let hi_idx = fpo.intern(hi);
        proof {
            lemma_link(ids0, nodes0, fpo.numbers(), fpo.node_count(), edges0.to_set(), lo0, hi0);
        }
        match graph_add_edge(&mut fpo.dag, lo_idx, hi_idx) {
            Ok(_) => {
                proof {
                    lemma_acyclic_after_insert(edges0.to_set(), lo_idx as int, hi_idx as int);
                    edges0.lemma_push_to_set_commute((lo_idx as int, hi_idx as int));
                    lemma_fact_precedes(fpo.facts(), lo0, hi0);
                }
                Ok(fpo)
            },
            Err(_) => Err(CycleError),
        }
    }

    /// Looks up the nodes of `lo` and `hi` and searches the graph from the
    /// one for the other. The search starts at `lo` itself, so an element
    /// that a fact names counts as preceding itself here.
    fn lt(&self, lo: &T, hi: &T) -> (res: Result<bool, CycleError>)
        ensures
            res == Ok::<bool, CycleError>(
                (*lo == *hi && mentions(self.facts(), *lo)) || precedes(self.facts(), *lo, *hi),
            ),
    {
        proof {
            lemma_known_is_mentioned(self.numbers(), self.node_count(), self.edges(), *lo);
            lemma_known_is_mentioned(self.numbers(), self.node_count(), self.edges(), *hi);
            if precedes(self.facts(), *lo, *hi) {
                lemma_path_of_chain(self.numbers(), self.edges(), *lo, *hi);
                lemma_precedes_mentions(self.facts(), *lo, *hi);
            }
        }
        match (self.ids.get(lo), self.ids.get(hi)) {
            (Some(lo_idx), Some(hi_idx)) => {
                proof {
                    lemma_order_is_reachability(
                        self.numbers(),
                        self.node_count(),
                        self.edges(),
                        *lo,
                        *hi,
                    );
                }
                Ok(self.reaches(*lo_idx, *hi_idx))
            },
            _ => Ok(false),
        }
    }
}

} // verus!
