//! The dependency solver of the `solvent` crate, as the passes use it: a graph of named
//! nodes with dependencies, and the order in which the dependencies of a target resolve.
use vstd::prelude::*;

use solvent::{DepGraph, SolventError};

verus! {

/// The dependency graph of `solvent`.
#[verifier::external_type_specification]
#[verifier::external_body]
#[verifier::reject_recursive_types(T)]
pub struct ExDepGraph<T: Eq>(DepGraph<T>);

/// The dependency edges held by a graph: `(node, depends_on)`.
pub uninterp spec fn dep_edges(g: DepGraph<String>) -> Set<(Seq<char>, Seq<char>)>;

/// The nodes registered in a graph.
pub uninterp spec fn dep_nodes(g: DepGraph<String>) -> Set<Seq<char>>;

/// The nodes marked as satisfied in a graph (`mark_as_satisfied`); the solver skips them.
pub uninterp spec fn dep_marked(g: DepGraph<String>) -> Set<Seq<char>>;

/// A path along the edges `e` from `t`, that comes back to one of its own nodes: a cycle that
/// `t` depends on.
pub open spec fn cycle_from(e: Set<(Seq<char>, Seq<char>)>, t: Seq<char>) -> bool {
    exists|path: Seq<Seq<char>>| #[trigger] looping_path(e, t, path)
}

/// `path` starts at `t`, follows the edges `e`, and ends on a node it met before.
pub open spec fn looping_path(e: Set<(Seq<char>, Seq<char>)>, t: Seq<char>, path: Seq<Seq<char>>) -> bool {
    &&& path.len() >= 2
    &&& path[0] == t
    &&& forall|i: int| 0 <= i < path.len() - 1 ==> e.contains((#[trigger] path[i], path[i + 1]))
    &&& exists|i: int| 0 <= i < path.len() - 1 && #[trigger] path[i] == path.last()
}

/// The two errors of `solvent`, as the library sees them.
#[derive(Debug, Clone, Copy, PartialEq, Eq, Structural)]
pub enum DependencyError {
    CycleDetected,
    NoSuchNode,
}

/// `DepGraph::new`: an empty graph.
#[verifier::external_body]
pub fn dep_graph_new() -> (g: DepGraph<String>)
    ensures
        dep_edges(g) == Set::<(Seq<char>, Seq<char>)>::empty(),
        dep_nodes(g) == Set::<Seq<char>>::empty(),
        dep_marked(g) == Set::<Seq<char>>::empty(),
{
    DepGraph::new()
}

/// `DepGraph::register_dependency`: registers both nodes and the edge from `node` to `depends_on`.
#[verifier::external_body]
pub fn dep_graph_register_dependency(g: &mut DepGraph<String>, node: String, depends_on: String)
    ensures
        dep_edges(*final(g)) == dep_edges(*old(g)).insert((node@, depends_on@)),
        dep_nodes(*final(g)) == dep_nodes(*old(g)).insert(node@).insert(depends_on@),
        dep_marked(*final(g)) == dep_marked(*old(g)),
{
    g.register_dependency(node, depends_on)
}

/// `DepGraph::register_dependencies`: registers `node`, every dependency, and an edge from
/// `node` to each of them.
#[verifier::external_body]
pub fn dep_graph_register_dependencies(g: &mut DepGraph<String>, node: String, depends_on: Vec<String>)
    ensures
        dep_edges(*final(g)) == dep_edges(*old(g)).union(
            Set::new(
                |e: (Seq<char>, Seq<char>)|
                    e.0 == node@ && exists|i: int|
                        0 <= i < depends_on@.len() && #[trigger] depends_on@[i]@ == e.1,
            ),
        ),
        dep_nodes(*final(g)) == dep_nodes(*old(g)).insert(node@).union(
            Set::new(
                |n: Seq<char>|
                    exists|i: int| 0 <= i < depends_on@.len() && #[trigger] depends_on@[i]@ == n,
            ),
        ),
        dep_marked(*final(g)) == dep_marked(*old(g)),
{
    g.register_dependencies(node, depends_on)
}

/// `DepGraph::dependencies_of`, run to its end: the nodes it yields, in order, and the error
/// that stopped it, if any, told apart by variant. A target that is not registered gives no node and `NoSuchNode`.
/// On a graph with no node marked as satisfied: each yielded node is registered, comes once,
/// and comes after every node it depends on; an error comes exactly when a cycle is
/// reachable from a registered target, and it is `CycleDetected`; without one, the target
/// comes last. Which order is picked among the valid ones depends on the iteration order of
/// the solver's hash sets and is not stated.
#[verifier::external_body]
pub fn dep_graph_dependencies_of(g: &DepGraph<String>, target: &String) -> (r: (
    Vec<String>,
    Option<DependencyError>,
))
    ensures
        !dep_nodes(*g).contains(target@) ==> r.0@.len() == 0 && r.1 == Some(DependencyError::NoSuchNode),
        dep_marked(*g) == Set::<Seq<char>>::empty() ==> {
            &&& forall|i: int| 0 <= i < r.0@.len() ==> dep_nodes(*g).contains(#[trigger] r.0@[i]@)
            &&& forall|i: int, j: int| 0 <= i < j < r.0@.len() ==> r.0@[i]@ != r.0@[j]@
            &&& forall|i: int, d: Seq<char>|
                0 <= i < r.0@.len() && #[trigger] dep_edges(*g).contains((r.0@[i]@, d)) ==> exists|
                    j: int,
                | 0 <= j < i && #[trigger] r.0@[j]@ == d
            &&& dep_nodes(*g).contains(target@) ==> (r.1 is None <==> !cycle_from(dep_edges(*g), target@))
            &&& dep_nodes(*g).contains(target@) && r.1 is Some ==> r.1 == Some(DependencyError::CycleDetected)
            &&& r.1 is None ==> r.0@.len() > 0 && r.0@.last()@ == target@
        },
{
    let mut order = Vec::new();
    let iter = match g.dependencies_of(target) {
        Err(SolventError::CycleDetected) => return (order, Some(DependencyError::CycleDetected)),
        Err(SolventError::NoSuchNode) => return (order, Some(DependencyError::NoSuchNode)),
        Ok(iter) => iter,
    };
    for item in iter {
        match item {
            Ok(n) => order.push(n.clone()),
            Err(SolventError::CycleDetected) => return (order, Some(DependencyError::CycleDetected)),
            Err(SolventError::NoSuchNode) => return (order, Some(DependencyError::NoSuchNode)),
        }
    }
    (order, None)
}

} // verus!
