//! A directed graph that keeps its nodes in one vector; edges refer to nodes by their
//! position in it.
use vstd::prelude::*;
use crate::data_structures::graph_search::{
    bfs_order, breadth_first, depth_first, dfs_order, graph_ok, visit_order_ok, Adjacency,
};

verus! {

/// A node: its value and the numbers of the nodes its edges lead to.
pub struct Node<T> {
    pub value: T,
    neighbors: Vec<usize>,
}

impl<T> Node<T> {
    /// The value held by the node.
    pub closed spec fn val(&self) -> T {
        self.value
    }

    /// Where the node's edges lead, in the order they were added.
    pub closed spec fn edges(&self) -> Seq<usize> {
        self.neighbors@
    }

    /// A node holding `value`, with no edges.
    fn new(value: T) -> (r: Self)
        ensures
            r.val() == value,
            r.edges() == Seq::<usize>::empty(),
    {
        Node { value, neighbors: Vec::new() }
    }

    /// Adds an edge from `from` to the node numbered `to`.
    pub fn add_edge(from: &mut Node<T>, to: usize)
        ensures
            final(from).val() == old(from).val(),
            final(from).edges() == old(from).edges().push(to),
    {
        from.neighbors.push(to);
    }
}

/// A directed graph. Nodes are numbered from 0 in the order they are added.
pub struct Graph<T> {
    nodes: Vec<Node<T>>,
}

impl<T> Adjacency for Graph<T> {
    closed spec fn node_count(&self) -> nat {
        self.nodes@.len()
    }

    closed spec fn adj(&self, u: int) -> Seq<usize> {
        self.nodes@[u].edges()
    }

    fn count(&self) -> (r: usize) {
        self.nodes.len()
    }

    fn successors(&self, u: usize) -> (r: &Vec<usize>) {
        &self.nodes[u].neighbors
    }
}

impl<T> Graph<T> {
    /// The values of the nodes, by number.
    pub closed spec fn values(&self) -> Seq<T> {
        Seq::new(self.nodes@.len(), |i: int| self.nodes@[i].val())
    }

    /// Creates an empty graph.
    pub fn new() -> (r: Self)
        ensures
            graph_ok(&r),
            r.node_count() == 0,
    {
        Graph { nodes: Vec::new() }
    }

    /// Adds a node holding `value` and returns its number.
    pub fn add_node(&mut self, value: T) -> (id: usize)
        requires
            graph_ok(old(self)),
        ensures
            graph_ok(final(self)),
            id == old(self).node_count(),
            final(self).values() == old(self).values().push(value),
            final(self).adj(id as int) == Seq::<usize>::empty(),
            forall|u: int| 0 <= u < id ==> final(self).adj(u) == old(self).adj(u),
    {
        let id = self.nodes.len();
        self.nodes.push(Node::new(value));
        proof {
            assert(self.values() =~= old(self).values().push(value));
            assert forall|u: int, k: int|
                0 <= u < self.node_count() && 0 <= k < self.adj(u).len() implies (#[trigger] self.adj(
                u,
            )[k]) < self.node_count() by {
                if u < id {
                    assert(old(self).adj(u)[k] < old(self).node_count());
                }
            }
        }
        id
    }

    /// Adds an edge from node `from` to node `to`.
    pub fn add_edge(&mut self, from: usize, to: usize)
        requires
            graph_ok(old(self)),
            from < old(self).node_count(),
            to < old(self).node_count(),
        ensures
            graph_ok(final(self)),
            final(self).values() == old(self).values(),
            final(self).node_count() == old(self).node_count(),
            final(self).adj(from as int) == old(self).adj(from as int).push(to),
            forall|u: int| 0 <= u < old(self).node_count() && u != from ==> final(self).adj(u)
                == old(self).adj(u),
    {
        Node::add_edge(&mut self.nodes[from], to);
        proof {
            assert(self.values() =~= old(self).values());
            assert forall|u: int, k: int|
                0 <= u < self.node_count() && 0 <= k < self.adj(u).len() implies (#[trigger] self.adj(
                u,
            )[k]) < self.node_count() by {
                if u != from || k < old(self).adj(u).len() {
                    assert(old(self).adj(u)[k] < old(self).node_count());
                }
            }
        }
    }

    /// The values of the nodes numbered in `order`, in that order.
    fn values_in(&self, order: &Vec<usize>) -> (r: Vec<&T>)
        requires
            forall|i: int| 0 <= i < order@.len() ==> order@[i] < self.node_count(),
        ensures
            r@.len() == order@.len(),
            forall|i: int| 0 <= i < r@.len() ==> *r@[i] == self.values()[order@[i] as int],
    {
        let mut r: Vec<&T> = Vec::new();
        let mut i: usize = 0;
        while i < order.len()
            invariant
                i <= order@.len(),
                r@.len() == i,
                forall|k: int| 0 <= k < order@.len() ==> order@[k] < self.node_count(),
                forall|k: int| 0 <= k < i ==> *r@[k] == self.values()[order@[k] as int],
            decreases order@.len() - i,
        {
            r.push(&self.nodes[order[i]].value);
            i = i + 1;
        }
        r
    }

    /// Depth-first traversal from `start`: the values of the nodes reachable from
    /// `start`, each once, in the order they are visited.
    pub fn dfs(&self, start: usize) -> (r: Vec<&T>)
        requires
            graph_ok(self),
            start < self.node_count(),
        ensures
            visit_order_ok(self, start, dfs_order(self, start)),
            r@.len() == dfs_order(self, start).len(),
            forall|i: int| 0 <= i < r@.len() ==> *r@[i] == self.values()[dfs_order(self, start)[i] as int],
    {
        let order = depth_first(self, start);
        self.values_in(&order)
    }

    /// Breadth-first traversal from `start`: the values of the nodes reachable from
    /// `start`, each once, in the order they are visited.
    pub fn bfs(&self, start: usize) -> (r: Vec<&T>)
        requires
            graph_ok(self),
            start < self.node_count(),
        ensures
            visit_order_ok(self, start, bfs_order(self, start)),
            r@.len() == bfs_order(self, start).len(),
            forall|i: int| 0 <= i < r@.len() ==> *r@[i] == self.values()[bfs_order(self, start)[i] as int],
    {
        let order = breadth_first(self, start);
        self.values_in(&order)
    }
}

} // verus!
