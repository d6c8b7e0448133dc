//! Depth-first and breadth-first search over graphs whose nodes are numbered `0..n`
//! and list their successors by number.
use vstd::prelude::*;
use std::collections::VecDeque;

verus! {

/// A directed graph with nodes `0..node_count()`.
pub trait Adjacency {
    spec fn node_count(&self) -> nat;

    /// The successors of node `u`, in the order their edges were added.
    spec fn adj(&self, u: int) -> Seq<usize>;

    fn count(&self) -> (r: usize)
        ensures
            r == self.node_count(),
    ;

    fn successors(&self, u: usize) -> (r: &Vec<usize>)
        requires
            u < self.node_count(),
        ensures
            r@ == self.adj(u as int),
    ;
}

/// Every edge ends at a node of the graph.
pub open spec fn graph_ok<G: Adjacency>(g: &G) -> bool {
    forall|u: int, k: int|
        0 <= u < g.node_count() && 0 <= k < g.adj(u).len() ==> (#[trigger] g.adj(u)[k])
            < g.node_count()
}

/// There is an edge from `u` to `v`.
pub open spec fn edge<G: Adjacency>(g: &G, u: usize, v: usize) -> bool {
    u < g.node_count() && g.adj(u as int).contains(v)
}

/// `p` is a non-empty walk along edges.
pub open spec fn is_path<G: Adjacency>(g: &G, p: Seq<usize>) -> bool {
    &&& p.len() > 0
    &&& forall|i: int| 0 <= i < p.len() - 1 ==> #[trigger] edge(g, p[i], p[i + 1])
}

/// Some walk leads from `s` to `t`.
pub open spec fn reachable<G: Adjacency>(g: &G, s: usize, t: usize) -> bool {
    exists|p: Seq<usize>| #[trigger] is_path(g, p) && p[0] == s && p.last() == t
}

/// Some node among the first `i` of `order` has an edge to node `v`.
pub open spec fn entered_from<G: Adjacency>(g: &G, order: Seq<usize>, i: int, v: usize) -> bool {
    exists|j: int| 0 <= j < i && #[trigger] edge(g, order[j], v)
}

/// `order` lists every node reachable from `start` exactly once, starts with `start`,
/// and reaches each later node by an edge from a node listed before it.
pub open spec fn visit_order_ok<G: Adjacency>(g: &G, start: usize, order: Seq<usize>) -> bool {
    &&& order.len() > 0
    &&& order[0] == start
    &&& order.no_duplicates()
    &&& forall|i: int| 0 <= i < order.len() ==> #[trigger] order[i] < g.node_count()
    &&& forall|x: usize| order.contains(x) <==> reachable(g, start, x)
    &&& forall|i: int| 0 < i < order.len() ==> #[trigger] entered_from(g, order, i, order[i])
}

/// The number of nodes not yet visited.
pub open spec fn unvisited_count(visited: Seq<bool>) -> nat
    decreases visited.len(),
{
    if visited.len() == 0 {
        0
    } else {
        unvisited_count(visited.drop_last()) + if visited.last() {
            0nat
        } else {
            1nat
        }
    }
}

/// Marking an unvisited node leaves one fewer unvisited.
pub proof fn lemma_mark_visited(visited: Seq<bool>, u: int)
    requires
        0 <= u < visited.len(),
        !visited[u],
    ensures
        unvisited_count(visited.update(u, true)) + 1 == unvisited_count(visited),
    decreases visited.len(),
{
    if u == visited.len() - 1 {
        assert(visited.update(u, true).drop_last() =~= visited.drop_last());
    } else {
        lemma_mark_visited(visited.drop_last(), u);
        assert(visited.update(u, true).drop_last() =~= visited.drop_last().update(u, true));
    }
}

/// What a depth-first search goes on to visit when it holds `pending` (the top last) and
/// has visited the nodes marked in `visited`: it takes the top node; a visited one is
/// dropped, an unvisited one is visited and its successors are put on the stack so that
/// the first successor is on top.
pub open spec fn dfs_rest<G: Adjacency>(g: &G, pending: Seq<usize>, visited: Seq<bool>) -> Seq<usize>
    decreases unvisited_count(visited), pending.len(),
{
    if pending.len() == 0 {
        Seq::empty()
    } else {
        let u = pending.last();
        let rest = pending.drop_last();
        if u >= visited.len() || visited[u as int] {
            dfs_rest(g, rest, visited)
        } else {
            proof {
                lemma_mark_visited(visited, u as int);
            }
            seq![u] + dfs_rest(g, rest + g.adj(u as int).reverse(), visited.update(u as int, true))
        }
    }
}

/// What a breadth-first search goes on to visit when it holds `pending` (the front first)
/// and has visited the nodes marked in `visited`: it takes the front node; a visited one
/// is dropped, an unvisited one is visited and its successors join the back in order.
pub open spec fn bfs_rest<G: Adjacency>(g: &G, pending: Seq<usize>, visited: Seq<bool>) -> Seq<usize>
    decreases unvisited_count(visited), pending.len(),
{
    if pending.len() == 0 {
        Seq::empty()
    } else {
        let u = pending[0];
        let rest = pending.drop_first();
        if u >= visited.len() || visited[u as int] {
            bfs_rest(g, rest, visited)
        } else {
            proof {
                lemma_mark_visited(visited, u as int);
            }
            seq![u] + bfs_rest(g, rest + g.adj(u as int), visited.update(u as int, true))
        }
    }
}

/// The nodes in the order a depth-first search from `start` visits them.
pub open spec fn dfs_order<G: Adjacency>(g: &G, start: usize) -> Seq<usize> {
    dfs_rest(g, seq![start], Seq::new(g.node_count(), |i: int| false))
}

/// The nodes in the order a breadth-first search from `start` visits them.
pub open spec fn bfs_order<G: Adjacency>(g: &G, start: usize) -> Seq<usize> {
    bfs_rest(g, seq![start], Seq::new(g.node_count(), |i: int| false))
}

/// Breadth-first search is first-in first-out: when the queue starts with nodes `p`, all
/// unvisited and each once, it visits exactly those nodes first, in queue order, whatever
/// follows them in the queue and whatever they discover.
pub proof fn law_bfs_takes_queue_in_order<G: Adjacency>(
    g: &G,
    p: Seq<usize>,
    extra: Seq<usize>,
    visited: Seq<bool>,
)
    requires
        p.no_duplicates(),
        forall|i: int| 0 <= i < p.len() ==> #[trigger] p[i] < visited.len() && !visited[p[i] as int],
    ensures
        bfs_rest(g, p + extra, visited).len() >= p.len(),
        bfs_rest(g, p + extra, visited).take(p.len() as int) == p,
    decreases p.len(),
{
    if p.len() > 0 {
        let u = p[0];
        let q = p + extra;
        assert(q[0] == u);
        let seen = visited.update(u as int, true);
        let tail = p.drop_first();
        assert(q.drop_first() + g.adj(u as int) =~= tail + (extra + g.adj(u as int)));
        assert forall|i: int| 0 <= i < tail.len() implies #[trigger] tail[i] < seen.len() && !seen[tail[i] as int] by {
            assert(tail[i] == p[i + 1]);
            assert(p[i + 1] != p[0]);
        }
        law_bfs_takes_queue_in_order(g, tail, extra + g.adj(u as int), seen);
        let later = bfs_rest(g, tail + (extra + g.adj(u as int)), seen);
        assert(bfs_rest(g, q, visited) == seq![u] + later);
        assert forall|i: int| 0 <= i < p.len() implies #[trigger] (seq![u] + later)[i] == p[i] by {
            if i > 0 {
                assert(later.take(tail.len() as int)[i - 1] == tail[i - 1]);
            }
        }
        assert((seq![u] + later).take(p.len() as int) =~= p);
    } else {
        assert(bfs_rest(g, p + extra, visited).take(0) =~= p);
    }
}

/// A breadth-first search visits the start, then the start's successors in the order of
/// its edges, before anything else.
pub proof fn law_bfs_visits_successors_in_edge_order<G: Adjacency>(g: &G, start: usize)
    requires
        graph_ok(g),
        start < g.node_count(),
        g.adj(start as int).no_duplicates(),
        !g.adj(start as int).contains(start),
    ensures
        bfs_order(g, start).len() >= 1 + g.adj(start as int).len(),
        bfs_order(g, start).take(1 + g.adj(start as int).len() as int) == seq![start] + g.adj(start as int),
{
    let none = Seq::new(g.node_count(), |i: int| false);
    let seen = none.update(start as int, true);
    let succ = g.adj(start as int);
    assert(seq![start][0] == start);
    assert(seq![start].drop_first() + succ =~= succ + Seq::<usize>::empty());
    assert forall|i: int| 0 <= i < succ.len() implies #[trigger] succ[i] < seen.len() && !seen[succ[i] as int] by {
        assert(succ[i] != start);
    }
    law_bfs_takes_queue_in_order(g, succ, Seq::empty(), seen);
    let later = bfs_rest(g, succ + Seq::<usize>::empty(), seen);
    assert(bfs_order(g, start) == seq![start] + later);
    assert((seq![start] + later).take(1 + succ.len() as int) =~= seq![start] + succ);
}

/// Depth-first search is last-in first-out: an unvisited node on top of the stack is the
/// next one visited, and right after it comes its first successor, when that one is
/// unvisited and not the node itself.
pub proof fn law_dfs_takes_top_then_first_successor<G: Adjacency>(
    g: &G,
    pending: Seq<usize>,
    visited: Seq<bool>,
)
    requires
        pending.len() > 0,
        pending.last() < visited.len(),
        !visited[pending.last() as int],
    ensures
        dfs_rest(g, pending, visited).len() > 0,
        dfs_rest(g, pending, visited)[0] == pending.last(),
        ({
            let u = pending.last();
            let succ = g.adj(u as int);
            succ.len() > 0 && succ[0] < visited.len() && !visited[succ[0] as int] && succ[0] != u
                ==> dfs_rest(g, pending, visited).len() > 1 && dfs_rest(g, pending, visited)[1] == succ[0]
        }),
{
    let u = pending.last();
    let succ = g.adj(u as int);
    let seen = visited.update(u as int, true);
    let next = pending.drop_last() + succ.reverse();
    let later = dfs_rest(g, next, seen);
    assert(dfs_rest(g, pending, visited) == seq![u] + later);
    if succ.len() > 0 && succ[0] < visited.len() && !visited[succ[0] as int] && succ[0] != u {
        assert(next.last() == succ[0]);
        assert(dfs_rest(g, next, seen) == seq![succ[0]] + dfs_rest(
            g,
            next.drop_last() + g.adj(succ[0] as int).reverse(),
            seen.update(succ[0] as int, true),
        ));
        assert((seq![u] + later)[1] == later[0]);
    }
}

/// A depth-first search from `start` visits `start` first and then, when `start` has a
/// successor other than itself, its first successor in edge order.
pub proof fn law_dfs_starts_down_the_first_edge<G: Adjacency>(g: &G, start: usize)
    requires
        graph_ok(g),
        start < g.node_count(),
    ensures
        dfs_order(g, start).len() > 0,
        dfs_order(g, start)[0] == start,
        g.adj(start as int).len() > 0 && g.adj(start as int)[0] != start ==> dfs_order(g, start).len() > 1
            && dfs_order(g, start)[1] == g.adj(start as int)[0],
{
    let none = Seq::new(g.node_count(), |i: int| false);
    assert(seq![start].last() == start);
    if g.adj(start as int).len() > 0 {
        assert(g.adj(start as int)[0] < g.node_count());
    }
    law_dfs_takes_top_then_first_successor(g, seq![start], none);
}

/// Depth-first search from `start`: takes the most recently found node next, and
/// finds the successors of a node in the order of its edges. Returns the nodes in
/// the order they are visited.
pub fn depth_first<G: Adjacency>(g: &G, start: usize) -> (order: Vec<usize>)
    requires
        graph_ok(g),
        start < g.node_count(),
    ensures
        visit_order_ok(g, start, order@),
        order@ == dfs_order(g, start),
{
    let n = g.count();
    let mut visited = all_unvisited(n);
    let mut order: Vec<usize> = Vec::new();
    let mut stack: Vec<usize> = Vec::new();
    stack.push(start);
    proof {
        assert(stack@ =~= seq![start]);
        assert(is_path(g, seq![start]));
        assert(visited@ =~= Seq::new(g.node_count(), |i: int| false));
        assert(order@ + dfs_rest(g, stack@, visited@) =~= dfs_order(g, start));
    }
    while stack.len() > 0
        invariant
            n == g.node_count(),
            search_inv(g, start, visited@, order@, stack@),
            visited@.len() == n,
            order@ + dfs_rest(g, stack@, visited@) == dfs_order(g, start),
        decreases n - order@.len(), stack@.len(),
    {
        let ghost pending = stack@;
        let u = stack.pop().unwrap();
        proof {
            assert(pending == stack@.push(u));
            lemma_taken(pending, stack@, u);
            let k = choose|k: int| 0 <= k < pending.len() && pending[k] == u;
            assert(pending[k] < n);
        }
        if visited[u] {
            proof {
                assert(order@.contains(u));
                lemma_skip_visited(g, start, visited@, order@, pending, stack@, u);
                assert(pending.drop_last() =~= stack@);
            }
            continue;
        }
        let ghost rest = stack@;
        let ghost before_visited = visited@;
        let ghost before_order = order@;
        visited.set(u, true);
        order.push(u);
        let nb = g.successors(u);
        push_reversed(&mut stack, nb);
        proof {
            lemma_visit_new(g, start, before_visited, before_order, pending, rest, u, nb@.reverse());
            assert(order@ == before_order.push(u));
            assert(visited@ == before_visited.update(u as int, true));
            assert(pending.drop_last() =~= rest);
            assert(order@ + dfs_rest(g, stack@, visited@) =~= before_order + dfs_rest(g, pending, before_visited));
        }
    }
    proof {
        assert(stack@ =~= Seq::<usize>::empty());
        lemma_search_done(g, start, visited@, order@);
        assert(order@ =~= order@ + dfs_rest(g, stack@, visited@));
    }
    order
}

/// Breadth-first search from `start`: takes the earliest found node next, and finds
/// the successors of a node in the order of its edges. Returns the nodes in the order
/// they are visited.
pub fn breadth_first<G: Adjacency>(g: &G, start: usize) -> (order: Vec<usize>)
    requires
        graph_ok(g),
        start < g.node_count(),
    ensures
        visit_order_ok(g, start, order@),
        order@ == bfs_order(g, start),
{
    let n = g.count();
    let mut visited = all_unvisited(n);
    let mut order: Vec<usize> = Vec::new();
    let mut queue: VecDeque<usize> = VecDeque::new();
    queue.push_back(start);
    proof {
        assert(queue@ =~= seq![start]);
        assert(is_path(g, seq![start]));
        assert(visited@ =~= Seq::new(g.node_count(), |i: int| false));
        assert(order@ + bfs_rest(g, queue@, visited@) =~= bfs_order(g, start));
    }
    while queue.len() > 0
        invariant
            n == g.node_count(),
            search_inv(g, start, visited@, order@, queue@),
            visited@.len() == n,
            order@ + bfs_rest(g, queue@, visited@) == bfs_order(g, start),
        decreases n - order@.len(), queue@.len(),
    {
        let ghost pending = queue@;
        let u = queue.pop_front().unwrap();
        proof {
            assert(pending =~= seq![u] + queue@);
            lemma_taken(pending, queue@, u);
            let k = choose|k: int| 0 <= k < pending.len() && pending[k] == u;
            assert(pending[k] < n);
        }
        if visited[u] {
            proof {
                assert(order@.contains(u));
                lemma_skip_visited(g, start, visited@, order@, pending, queue@, u);
                assert(pending.drop_first() =~= queue@);
            }
            continue;
        }
        let ghost rest = queue@;
        let ghost before_visited = visited@;
        let ghost before_order = order@;
        visited.set(u, true);
        order.push(u);
        let nb = g.successors(u);
        push_in_order(&mut queue, nb);
        proof {
            lemma_visit_new(g, start, before_visited, before_order, pending, rest, u, nb@);
            assert(order@ == before_order.push(u));
            assert(visited@ == before_visited.update(u as int, true));
            assert(pending.drop_first() =~= rest);
            assert(order@ + bfs_rest(g, queue@, visited@) =~= before_order + bfs_rest(g, pending, before_visited));
        }
    }
    proof {
        assert(queue@ =~= Seq::<usize>::empty());
        lemma_search_done(g, start, visited@, order@);
        assert(order@ =~= order@ + bfs_rest(g, queue@, visited@));
    }
    order
}

/// Pushes the successors `nb` onto `stack` in reverse, so that the first one is popped first.
fn push_reversed(stack: &mut Vec<usize>, nb: &Vec<usize>)
    ensures
        final(stack)@ == old(stack)@ + nb@.reverse(),
{
    let mut k = nb.len();
    while k > 0
        invariant
            k <= nb@.len(),
            stack@ == old(stack)@ + nb@.subrange(k as int, nb@.len() as int).reverse(),
        decreases k,
    {
        k = k - 1;
        stack.push(nb[k]);
        proof {
            assert(nb@.subrange(k as int, nb@.len() as int).reverse() =~= nb@.subrange(
                (k + 1) as int,
                nb@.len() as int,
            ).reverse().push(nb@[k as int]));
        }
    }
    proof {
        assert(nb@.subrange(0, nb@.len() as int) =~= nb@);
    }
}

/// Appends the successors `nb` to `queue`, first one first.
fn push_in_order(queue: &mut VecDeque<usize>, nb: &Vec<usize>)
    ensures
        final(queue)@ == old(queue)@ + nb@,
{
    let mut k: usize = 0;
    while k < nb.len()
        invariant
            k <= nb@.len(),
            queue@ == old(queue)@ + nb@.subrange(0, k as int),
        decreases nb@.len() - k,
    {
        queue.push_back(nb[k]);
        k = k + 1;
        proof {
            assert(nb@.subrange(0, k as int) =~= nb@.subrange(0, (k - 1) as int).push(nb@[k - 1]));
        }
    }
    proof {
        assert(nb@.subrange(0, nb@.len() as int) =~= nb@);
    }
}

/// `n` entries, each `false`.
fn all_unvisited(n: usize) -> (r: Vec<bool>)
    ensures
        r@.len() == n,
        forall|i: int| 0 <= i < n ==> !r@[i],
{
    let mut r: Vec<bool> = Vec::new();
    while r.len() < n
        invariant
            r@.len() <= n,
            forall|i: int| 0 <= i < r@.len() ==> !r@[i],
        decreases n - r@.len(),
    {
        r.push(false);
    }
    r
}

/// The state of a search after some steps: `order` lists the nodes visited so far,
/// `pending` those waiting to be taken (a stack or a queue), `visited` marks the nodes of
/// `order`.
spec fn search_inv<G: Adjacency>(
    g: &G,
    start: usize,
    visited: Seq<bool>,
    order: Seq<usize>,
    pending: Seq<usize>,
) -> bool {
    &&& graph_ok(g)
    &&& g.node_count() <= usize::MAX
    &&& start < g.node_count()
    &&& visited.len() == g.node_count()
    &&& forall|x: int| 0 <= x < g.node_count() ==> (visited[x] <==> order.contains(x as usize))
    &&& order.no_duplicates()
    &&& forall|i: int| 0 <= i < order.len() ==> #[trigger] order[i] < g.node_count()
    &&& forall|k: int| 0 <= k < pending.len() ==> #[trigger] pending[k] < g.node_count()
    &&& order.len() == 0 ==> pending == seq![start]
    &&& order.len() > 0 ==> order[0] == start
    &&& forall|i: int| 0 <= i < order.len() ==> reachable(g, start, #[trigger] order[i])
    &&& forall|k: int| 0 <= k < pending.len() ==> reachable(g, start, #[trigger] pending[k])
    &&& forall|i: int| 0 < i < order.len() ==> #[trigger] entered_from(g, order, i, order[i])
    &&& forall|k: int|
        0 <= k < pending.len() ==> pending[k] == start || #[trigger] entered_from(
            g,
            order,
            order.len() as int,
            pending[k],
        )
    &&& forall|u: usize, v: usize|
        order.contains(u) && #[trigger] edge(g, u, v) ==> order.contains(v) || pending.contains(v)
}

/// Taking a node `u` off the pending ones (`rest` is what stays pending) that was
/// already visited keeps the invariant.
proof fn lemma_skip_visited<G: Adjacency>(
    g: &G,
    start: usize,
    visited: Seq<bool>,
    order: Seq<usize>,
    pending: Seq<usize>,
    rest: Seq<usize>,
    u: usize,
)
    requires
        search_inv(g, start, visited, order, pending),
        order.contains(u),
        pending == rest.push(u) || pending == seq![u] + rest,
    ensures
        search_inv(g, start, visited, order, rest),
{
    lemma_taken(pending, rest, u);
    assert(order.len() > 0);
    assert forall|k: int| 0 <= k < rest.len() implies #[trigger] rest[k] < g.node_count()
        && reachable(g, start, rest[k]) && (rest[k] == start || entered_from(
        g,
        order,
        order.len() as int,
        rest[k],
    )) by {
        assert(pending.contains(rest[k]));
        let k2 = choose|k2: int| 0 <= k2 < pending.len() && pending[k2] == rest[k];
        assert(pending[k2] < g.node_count());
        assert(reachable(g, start, pending[k2]));
    }
    assert forall|u2: usize, v: usize| order.contains(u2) && #[trigger] edge(g, u2, v)
        implies order.contains(v) || rest.contains(v) by {
        if !order.contains(v) {
            assert(pending.contains(v));
        }
    }
}

/// What taking `u` from the back or the front of `pending` leaves in `rest`.
proof fn lemma_taken(pending: Seq<usize>, rest: Seq<usize>, u: usize)
    requires
        pending == rest.push(u) || pending == seq![u] + rest,
    ensures
        pending.contains(u),
        forall|v: usize| pending.contains(v) ==> v == u || rest.contains(v),
        forall|k: int| 0 <= k < rest.len() ==> pending.contains(#[trigger] rest[k]),
        forall|v: usize| rest.contains(v) ==> pending.contains(v),
{
    if pending == rest.push(u) {
        assert(pending[rest.len() as int] == u);
        assert forall|v: usize| pending.contains(v) implies v == u || rest.contains(v) by {
            let k = choose|k: int| 0 <= k < pending.len() && pending[k] == v;
            if k < rest.len() {
                assert(rest[k] == v);
            }
        }
        assert forall|k: int| 0 <= k < rest.len() implies pending.contains(#[trigger] rest[k]) by {
            assert(pending[k] == rest[k]);
        }
    } else {
        assert(pending[0] == u);
        assert forall|v: usize| pending.contains(v) implies v == u || rest.contains(v) by {
            let k = choose|k: int| 0 <= k < pending.len() && pending[k] == v;
            if k > 0 {
                assert(rest[k - 1] == v);
            }
        }
        assert forall|k: int| 0 <= k < rest.len() implies pending.contains(#[trigger] rest[k]) by {
            assert(pending[k + 1] == rest[k]);
        }
    }
    assert forall|v: usize| rest.contains(v) implies pending.contains(v) by {
        let k = choose|k: int| 0 <= k < rest.len() && rest[k] == v;
        assert(pending.contains(rest[k]));
    }
}

/// `s` and its reverse hold the same values.
proof fn lemma_reverse_contains(s: Seq<usize>)
    ensures
        forall|v: usize| s.reverse().contains(v) <==> s.contains(v),
{
    assert forall|v: usize| s.reverse().contains(v) <==> s.contains(v) by {
        if s.contains(v) {
            let k = choose|k: int| 0 <= k < s.len() && s[k] == v;
            assert(s.reverse()[s.len() - 1 - k] == v);
        }
        if s.reverse().contains(v) {
            let k = choose|k: int| 0 <= k < s.len() && s.reverse()[k] == v;
            assert(s[s.len() - 1 - k] == v);
        }
    }
}

/// Visiting a pending node `u` that was not visited yet, and adding its successors
/// (`extra`, in either order) to what stays pending, keeps the invariant.
proof fn lemma_visit_new<G: Adjacency>(
    g: &G,
    start: usize,
    visited: Seq<bool>,
    order: Seq<usize>,
    pending: Seq<usize>,
    rest: Seq<usize>,
    u: usize,
    extra: Seq<usize>,
)
    requires
        search_inv(g, start, visited, order, pending),
        !order.contains(u),
        pending == rest.push(u) || pending == seq![u] + rest,
        extra == g.adj(u as int) || extra == g.adj(u as int).reverse(),
    ensures
        search_inv(g, start, visited.update(u as int, true), order.push(u), rest + extra),
        order.push(u).len() <= g.node_count(),
{
    lemma_taken(pending, rest, u);
    lemma_reverse_contains(g.adj(u as int));
    let n = g.node_count();
    let k0 = choose|k: int| 0 <= k < pending.len() && pending[k] == u;
    assert(pending[k0] < n && reachable(g, start, pending[k0]));
    let order2 = order.push(u);
    let pending2 = rest + extra;
    let visited2 = visited.update(u as int, true);
    assert forall|v: usize| extra.contains(v) <==> g.adj(u as int).contains(v) by {}
    assert forall|x: int| 0 <= x < n implies (visited2[x] <==> order2.contains(x as usize)) by {
        if x != u as int {
            if order2.contains(x as usize) {
                let i = choose|i: int| 0 <= i < order2.len() && order2[i] == x as usize;
                assert(order2[order.len() as int] == u);
                assert(i < order.len());
                assert(order.contains(x as usize));
            }
            if order.contains(x as usize) {
                let i = choose|i: int| 0 <= i < order.len() && order[i] == x as usize;
                assert(order2[i] == x as usize);
            }
        } else {
            assert(order2[order.len() as int] == u);
        }
    }
    if order.len() == 0 {
        assert(pending == seq![start]);
        assert(u == start);
    } else {
        assert(order.contains(start)) by {
            assert(order[0] == start);
        }
    }
    assert forall|i: int| 0 <= i < order2.len() implies #[trigger] order2[i] < n && reachable(
        g,
        start,
        order2[i],
    ) by {
        if i < order.len() {
            assert(order2[i] == order[i]);
        }
    }
    assert forall|k: int| 0 <= k < pending2.len() implies #[trigger] pending2[k] < n && reachable(
        g,
        start,
        pending2[k],
    ) && (pending2[k] == start || entered_from(g, order2, order2.len() as int, pending2[k])) by {
        if k < rest.len() {
            assert(pending2[k] == rest[k]);
            assert(pending.contains(rest[k]));
            let k2 = choose|k2: int| 0 <= k2 < pending.len() && pending[k2] == rest[k];
            assert(pending[k2] < n && reachable(g, start, pending[k2]));
            if pending[k2] != start {
                assert(entered_from(g, order, order.len() as int, pending[k2]));
                let j = choose|j: int| 0 <= j < order.len() && #[trigger] edge(g, order[j], pending[k2]);
                assert(order2[j] == order[j]);
                assert(edge(g, order2[j], pending2[k]));
            }
        } else {
            let v = pending2[k];
            assert(v == extra[k - rest.len()]);
            assert(extra.contains(v));
            assert(g.adj(u as int).contains(v));
            let m = choose|m: int| 0 <= m < g.adj(u as int).len() && g.adj(u as int)[m] == v;
            assert(g.adj(u as int)[m] < n);
            assert(edge(g, u, v));
            lemma_reach_step(g, start, u, v);
            assert(order2[order.len() as int] == u);
            assert(edge(g, order2[order.len() as int], v));
        }
    }
    assert forall|i: int| 0 < i < order2.len() implies #[trigger] entered_from(
        g,
        order2,
        i,
        order2[i],
    ) by {
        if i < order.len() {
            assert(entered_from(g, order, i, order[i]));
            let j = choose|j: int| 0 <= j < i && #[trigger] edge(g, order[j], order[i]);
            assert(order2[j] == order[j] && order2[i] == order[i]);
            assert(edge(g, order2[j], order2[i]));
        } else {
            assert(order2[i] == u);
            assert(u != start);
            assert(entered_from(g, order, order.len() as int, pending[k0]));
            let j = choose|j: int| 0 <= j < order.len() && #[trigger] edge(g, order[j], pending[k0]);
            assert(order2[j] == order[j]);
            assert(edge(g, order2[j], order2[i]));
        }
    }
    assert forall|a: int, b: int| 0 <= a < b < order2.len() implies order2[a] != order2[b] by {
        if b == order.len() {
            assert(order.contains(order2[a]));
        }
    }
    assert forall|u2: usize, v: usize| order2.contains(u2) && #[trigger] edge(g, u2, v)
        implies order2.contains(v) || pending2.contains(v) by {
        if u2 == u {
            assert(extra.contains(v));
            let m = choose|m: int| 0 <= m < extra.len() && extra[m] == v;
            assert(pending2[rest.len() + m] == v);
        } else {
            let i = choose|i: int| 0 <= i < order2.len() && order2[i] == u2;
            assert(order[i] == u2);
            assert(order.contains(u2));
            if order.contains(v) {
                let i2 = choose|i2: int| 0 <= i2 < order.len() && order[i2] == v;
                assert(order2[i2] == v);
            } else {
                assert(pending.contains(v));
                if v != u {
                    assert(rest.contains(v));
                    let m = choose|m: int| 0 <= m < rest.len() && rest[m] == v;
                    assert(pending2[m] == v);
                } else {
                    assert(order2[order.len() as int] == v);
                }
            }
        }
    }
    lemma_distinct_below(order2, n);
}

/// The invariant at the end of a search, with nothing pending, gives the contract.
proof fn lemma_search_done<G: Adjacency>(
    g: &G,
    start: usize,
    visited: Seq<bool>,
    order: Seq<usize>,
)
    requires
        search_inv(g, start, visited, order, Seq::empty()),
    ensures
        visit_order_ok(g, start, order),
{
    if order.len() == 0 {
        assert(seq![start].len() == 1);
    }
    assert(order[0] == start);
    assert(order.contains(start));

    assert forall|x: usize| order.contains(x) <==> reachable(g, start, x) by {
        if order.contains(x) {
            let i = choose|i: int| 0 <= i < order.len() && order[i] == x;
            assert(reachable(g, start, order[i]));
        }
        if reachable(g, start, x) {
            assert forall|u: usize, v: usize| order.contains(u) && #[trigger] edge(g, u, v)
                implies order.contains(v) by {
                assert(!Seq::<usize>::empty().contains(v));
            }
            lemma_closed_holds_reachable(g, start, order, x);
        }
    }
}

/// A sequence of distinct numbers below `n` has at most `n` entries.
pub(crate) proof fn lemma_distinct_below(s: Seq<usize>, n: nat)
    requires
        s.no_duplicates(),
        forall|i: int| 0 <= i < s.len() ==> s[i] < n,
    ensures
        s.len() <= n,
    decreases n,
{
    if n == 0 {
        if s.len() > 0 {
            assert(s[0] < 0);
        }
    } else if s.contains((n - 1) as usize) {
        let k = choose|k: int| 0 <= k < s.len() && s[k] == (n - 1) as usize;
        let t = s.remove(k);
        assert forall|i: int| 0 <= i < t.len() implies t[i] < n - 1 by {
            if i < k {
                assert(t[i] == s[i]);
            } else {
                assert(t[i] == s[i + 1]);
            }
        }
        assert forall|a: int, b: int| 0 <= a < b < t.len() implies t[a] != t[b] by {
            let a2 = if a < k { a } else { a + 1 };
            let b2 = if b < k { b } else { b + 1 };
            assert(t[a] == s[a2] && t[b] == s[b2]);
        }
        lemma_distinct_below(t, (n - 1) as nat);
    } else {
        assert forall|i: int| 0 <= i < s.len() implies s[i] < n - 1 by {
            assert(s[i] != (n - 1) as usize);
        }
        lemma_distinct_below(s, (n - 1) as nat);
    }
}

/// Extending a walk to `u` by an edge from `u` to `v` gives a walk to `v`.
proof fn lemma_reach_step<G: Adjacency>(g: &G, s: usize, u: usize, v: usize)
    requires
        reachable(g, s, u),
        edge(g, u, v),
    ensures
        reachable(g, s, v),
{
    let p = choose|p: Seq<usize>| #[trigger] is_path(g, p) && p[0] == s && p.last() == u;
    let q = p.push(v);
    assert forall|i: int| 0 <= i < q.len() - 1 implies #[trigger] edge(g, q[i], q[i + 1]) by {
        if i < p.len() - 1 {
            assert(q[i] == p[i] && q[i + 1] == p[i + 1]);
        }
    }
    assert(is_path(g, q));
}

/// Every node of a walk from a node of a closed set lies in that set.
proof fn lemma_closed_holds_walk<G: Adjacency>(g: &G, seen: Seq<usize>, p: Seq<usize>, i: int)
    requires
        is_path(g, p),
        0 <= i < p.len(),
        seen.contains(p[0]),
        forall|u: usize, v: usize| seen.contains(u) && #[trigger] edge(g, u, v) ==> seen.contains(v),
    ensures
        seen.contains(p[i]),
    decreases i,
{
    if i > 0 {
        let j = i - 1;
        lemma_closed_holds_walk(g, seen, p, j);
        assert(edge(g, p[j], p[j + 1]));
    }
}

/// A set of nodes that holds `s` and is closed under edges holds every node
/// reachable from `s`.
proof fn lemma_closed_holds_reachable<G: Adjacency>(g: &G, s: usize, seen: Seq<usize>, t: usize)
    requires
        seen.contains(s),
        forall|u: usize, v: usize| seen.contains(u) && #[trigger] edge(g, u, v) ==> seen.contains(v),
        reachable(g, s, t),
    ensures
        seen.contains(t),
{
    let p = choose|p: Seq<usize>| #[trigger] is_path(g, p) && p[0] == s && p.last() == t;
    lemma_closed_holds_walk(g, seen, p, p.len() - 1);
}

} // verus!
