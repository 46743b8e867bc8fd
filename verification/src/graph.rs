//! The directed acyclic graph and the depth-first search that the graph
//! representation builds on.
//!
//! Both come from outside: the graph is `daggy::Dag`, the search is
//! `petgraph::visit::Dfs`. Nothing in this file is proved. Each function
//! states what the outside function does in terms of what the graph and the
//! search hold, and the rest of the library is proved against these
//! statements.

use crate::relation::{acyclic, le};
use vstd::prelude::*;

verus! {

/// A `daggy::Dag` that carries nothing on its nodes and edges: the bare
/// shape of a directed acyclic graph.
#[verifier::external_body]
#[derive(Debug)]
pub struct Graph {
    dag: daggy::Dag<(), (), u32>,
}

/// `daggy::WouldCycle`: the error with which `daggy::Dag::add_edge` refuses
/// an edge.
#[verifier::external_type_specification]
#[verifier::external_body]
#[verifier::reject_recursive_types(E)]
pub struct ExWouldCycle<E>(daggy::WouldCycle<E>);

/// `petgraph::graph::NodeIndex`: the number of a node.
#[verifier::external_type_specification]
#[verifier::external_body]
#[verifier::reject_recursive_types(Ix)]
pub struct ExNodeIndex<Ix>(petgraph::graph::NodeIndex<Ix>);

/// `fixedbitset::FixedBitSet`: the bits in which a search keeps the nodes it
/// has seen.
#[verifier::external_type_specification]
#[verifier::external_body]
pub struct ExFixedBitSet(fixedbitset::FixedBitSet);

/// `petgraph::visit::Dfs`: a depth-first search that is stepped from
/// outside.
#[verifier::external_type_specification]
#[verifier::external_body]
#[verifier::reject_recursive_types(N)]
#[verifier::reject_recursive_types(VM)]
pub struct ExDfs<N, VM>(petgraph::visit::Dfs<N, VM>);

/// The number of nodes of a graph. Its nodes are the numbers below it.
pub uninterp spec fn graph_nodes(graph: Graph) -> nat;

/// The edges of a graph, each as the pair of its source and its target, in
/// the order in which they were added.
pub uninterp spec fn graph_edges(graph: Graph) -> Seq<(int, int)>;

/// The nodes that a search still has on its stack.
pub uninterp spec fn search_pending(
    dfs: petgraph::visit::Dfs<petgraph::graph::NodeIndex<u32>, fixedbitset::FixedBitSet>,
) -> Set<int>;

/// The nodes that a search has handed out.
pub uninterp spec fn search_seen(
    dfs: petgraph::visit::Dfs<petgraph::graph::NodeIndex<u32>, fixedbitset::FixedBitSet>,
) -> Set<int>;

/// The number of nodes that a search can tell apart: that of the graph it
/// was made for.
pub uninterp spec fn search_limit(
    dfs: petgraph::visit::Dfs<petgraph::graph::NodeIndex<u32>, fixedbitset::FixedBitSet>,
) -> nat;

/// One step of a search over `edges`, from the state `pending0`, `seen0` to
/// the state `pending1`, `seen1`.
///
/// The step hands out a pending node that was not seen before, marks it seen
/// and makes its unseen successors pending; nodes that were pending stay so
/// unless they are seen. When every pending node is seen already, the step
/// hands out nothing and leaves nothing pending.
pub open spec fn search_step(
    edges: Set<(int, int)>,
    pending0: Set<int>,
    seen0: Set<int>,
    node: Option<usize>,
    pending1: Set<int>,
    seen1: Set<int>,
) -> bool {
    match node {
        Some(n) => {
            &&& pending0.contains(n as int)
            &&& !seen0.contains(n as int)
            &&& seen1 == seen0.insert(n as int)
            &&& forall|s: int| #[trigger]
                pending1.contains(s) ==> pending0.contains(s) || edges.contains((n as int, s))
            &&& forall|s: int|
                (pending0.contains(s) || edges.contains((n as int, s))) && !seen1.contains(s)
                    ==> #[trigger] pending1.contains(s)
        },
        None => {
            &&& forall|s: int| #[trigger] pending0.contains(s) ==> seen0.contains(s)
            &&& seen1 == seen0
            &&& pending1 == Set::<int>::empty()
        },
    }
}

/// `daggy::Dag::clone`: a graph of its own with the same nodes and edges.
#[verifier::external_body]
pub(crate) fn graph_clone(dag: &Graph) -> (copy: Graph)
    ensures
        graph_nodes(copy) == graph_nodes(*dag),
        graph_edges(copy) == graph_edges(*dag),
{
    Graph { dag: dag.dag.clone() }
}

/// `daggy::Dag::new`: a graph without nodes and without edges.
#[verifier::external_body]
pub(crate) fn graph_new() -> (dag: Graph)
    ensures
        graph_nodes(dag) == 0,
        graph_edges(dag) == Seq::<(int, int)>::empty(),
{
    Graph { dag: daggy::Dag::new() }
}

/// `daggy::Dag::add_node`: the new node gets the next free number, and the
/// edges stay as they are. The outside function panics when the number of
/// nodes has reached `u32::MAX`.
#[verifier::external_body]
pub(crate) fn graph_add_node(dag: &mut Graph) -> (node: usize)
    requires
        graph_nodes(*old(dag)) < u32::MAX,
    ensures
        node == graph_nodes(*old(dag)),
        graph_nodes(*final(dag)) == graph_nodes(*old(dag)) + 1,
        graph_edges(*final(dag)) == graph_edges(*old(dag)),
{
    dag.dag.add_node(()).index()
}

/// `daggy::Dag::add_edge`: on an acyclic graph, the edge from `a` to `b` is
/// refused exactly if `a` is `b` or some path leads from `b` to `a`; a
/// refused edge leaves the graph as it was, any other is added behind the
/// edges that are there. The outside function panics when `a` or `b` is no
/// node of the graph, or when the number of edges has reached `u32::MAX`.
#[verifier::external_body]
pub(crate) fn graph_add_edge(dag: &mut Graph, a: usize, b: usize) -> (res:
    Result<(), daggy::WouldCycle<()>>)
    requires
        a < graph_nodes(*old(dag)),
        b < graph_nodes(*old(dag)),
        graph_nodes(*old(dag)) <= u32::MAX,
        graph_edges(*old(dag)).len() < u32::MAX,
        acyclic(graph_edges(*old(dag)).to_set()),
    ensures
        graph_nodes(*final(dag)) == graph_nodes(*old(dag)),
        res is Err <==> le(graph_edges(*old(dag)).to_set(), b as int, a as int),
        res is Err ==> graph_edges(*final(dag)) == graph_edges(*old(dag)),
        res is Ok ==> graph_edges(*final(dag)) == graph_edges(*old(dag)).push((a as int, b as int)),
{
    let a = petgraph::graph::NodeIndex::new(a);
    let b = petgraph::graph::NodeIndex::new(b);
    match dag.dag.add_edge(a, b, ()) {
        Ok(_) => Ok(()),
        Err(cycle) => Err(cycle),
    }
}

/// `petgraph::visit::Dfs::new`: a search over `dag` with `start` as its only
/// pending node and no node seen.
#[verifier::external_body]
pub(crate) fn search_new(dag: &Graph, start: usize) -> (dfs:
    petgraph::visit::Dfs<petgraph::graph::NodeIndex<u32>, fixedbitset::FixedBitSet>)
    requires
        start <= u32::MAX,
    ensures
        search_pending(dfs) == Set::<int>::empty().insert(start as int),
        search_seen(dfs) == Set::<int>::empty(),
        search_limit(dfs) == graph_nodes(*dag),
{
    petgraph::visit::Dfs::new(&dag.dag, petgraph::graph::NodeIndex::new(start))
}

/// `petgraph::visit::Dfs::next`: one step of the search over the edges of
/// `dag`. Which of the unseen pending nodes is handed out is left open. The
/// outside function panics on a pending node at or above the search's limit.
#[verifier::external_body]
pub(crate) fn search_next(
    dfs: &mut petgraph::visit::Dfs<petgraph::graph::NodeIndex<u32>, fixedbitset::FixedBitSet>,
    dag: &Graph,
) -> (node: Option<usize>)
    requires
        forall|s: int| #[trigger]
            search_pending(*old(dfs)).contains(s) ==> 0 <= s < search_limit(*old(dfs)),
    ensures
        search_limit(*final(dfs)) == search_limit(*old(dfs)),
        search_step(
            graph_edges(*dag).to_set(),
            search_pending(*old(dfs)),
            search_seen(*old(dfs)),
            node,
            search_pending(*final(dfs)),
            search_seen(*final(dfs)),
        ),
{
    match dfs.next(&dag.dag) {
        Some(node) => Some(node.index()),
        None => None,
    }
}

} // verus!
