use vstd::prelude::*;

verus! {

pub type NodeID = usize;

/// What a node of a route graph stands for: a network component passed through, or the VNF at
/// the given position of the service chain.
#[derive(Debug, Clone, Copy, PartialEq, Eq, Structural)]
pub enum NodeType {
    Component,
    VNF(usize),
}

/// A node of a route graph: which data-centre component it is, how many edges lead into it
/// (`route_count`), and the positions of its successors in the graph.
#[derive(Debug)]
pub struct RouteNode {
    pub node_type: NodeType,
    pub node_id: NodeID,
    pub route_count: u32,
    pub next_nodes: Vec<usize>,
}

impl RouteNode {
    pub fn new_component(node_id: NodeID) -> (r: RouteNode)
        ensures
            r.node_type == NodeType::Component,
            r.node_id == node_id,
            r.route_count == 1,
            r.next_nodes@ == Seq::<usize>::empty(),
    {
        RouteNode { node_type: NodeType::Component, node_id, route_count: 1, next_nodes: Vec::new() }
    }

    pub fn new_vnf(node_id: NodeID, stage: usize) -> (r: RouteNode)
        ensures
            r.node_type == NodeType::VNF(stage),
            r.node_id == node_id,
            r.route_count == 1,
            r.next_nodes@ == Seq::<usize>::empty(),
    {
        RouteNode { node_id, node_type: NodeType::VNF(stage), route_count: 1, next_nodes: Vec::new() }
    }
}

/// Number of occurrences of `x` in `s`.
pub open spec fn occ(s: Seq<usize>, x: usize) -> nat
    decreases s.len(),
{
    if s.len() == 0 {
        0
    } else {
        (if s[0] == x { 1nat } else { 0nat }) + occ(s.drop_first(), x)
    }
}

proof fn lemma_occ_concat(a: Seq<usize>, b: Seq<usize>, x: usize)
    ensures
        occ(a + b, x) == occ(a, x) + occ(b, x),
    decreases a.len(),
{
    if a.len() == 0 {
        assert(a + b =~= b);
    } else {
        assert((a + b).drop_first() =~= a.drop_first() + b);
        lemma_occ_concat(a.drop_first(), b, x);
    }
}

proof fn lemma_occ_contains(s: Seq<usize>, x: usize)
    ensures
        occ(s, x) > 0 <==> s.contains(x),
    decreases s.len(),
{
    if s.len() > 0 {
        lemma_occ_contains(s.drop_first(), x);
        if s.drop_first().contains(x) {
            let i = choose|i: int| 0 <= i < s.drop_first().len() && s.drop_first()[i] == x;
            assert(s[i + 1] == x);
        }
        if s.contains(x) && s[0] != x {
            let i = choose|i: int| 0 <= i < s.len() && s[i] == x;
            assert(s.drop_first()[i - 1] == x);
        }
    }
}

/// Number of edges into `n` that leave the first `m` nodes of the route graph.
pub open spec fn edges_into(route: Seq<RouteNode>, n: usize, m: int) -> nat
    decreases m,
{
    if m <= 0 {
        0
    } else {
        edges_into(route, n, m - 1) + occ(route[m - 1].next_nodes@, n)
    }
}

/// The edges into `n` depend only on the successor lists.
proof fn lemma_edges_same(g1: Seq<RouteNode>, g2: Seq<RouteNode>, n: usize, m: int)
    requires
        m <= g1.len(),
        m <= g2.len(),
        forall|j: int| 0 <= j < m ==> #[trigger] g1[j].next_nodes@ == g2[j].next_nodes@,
    ensures
        edges_into(g1, n, m) == edges_into(g2, n, m),
    decreases m,
{
    if m > 0 {
        lemma_edges_same(g1, g2, n, m - 1);
    }
}

/// Adding the edge `c -> x` adds one edge into `x`.
pub proof fn lemma_edges_push(g1: Seq<RouteNode>, g2: Seq<RouteNode>, c: int, x: usize, n: usize, m: int)
    requires
        0 <= c < m,
        m <= g1.len(),
        m <= g2.len(),
        forall|j: int| 0 <= j < m && j != c ==> #[trigger] g1[j].next_nodes@ == g2[j].next_nodes@,
        g2[c].next_nodes@ == g1[c].next_nodes@.push(x),
    ensures
        edges_into(g2, n, m) == edges_into(g1, n, m) + (if x == n { 1nat } else { 0nat }),
    decreases m,
{
    if m - 1 == c {
        lemma_edges_same(g1, g2, n, m - 1);
        lemma_occ_concat(g1[c].next_nodes@, seq![x], n);
        assert(g1[c].next_nodes@.push(x) == g1[c].next_nodes@ + seq![x]);
        assert(seq![x].drop_first() =~= Seq::<usize>::empty());
        assert(occ(seq![x], n) == (if x == n { 1nat } else { 0nat }) + occ(Seq::<usize>::empty(), n));
    } else {
        lemma_edges_push(g1, g2, c, x, n, m - 1);
    }
}

/// Appending a node without successors adds no edges.
pub proof fn lemma_edges_append_empty(g: Seq<RouteNode>, r: RouteNode, n: usize)
    requires
        r.next_nodes@.len() == 0,
    ensures
        edges_into(g.push(r), n, g.len() as int + 1) == edges_into(g, n, g.len() as int),
{
    lemma_edges_same(g, g.push(r), n, g.len() as int);
    assert(occ(r.next_nodes@, n) == 0);
}

/// No edges lead into a node that no successor list names.
pub proof fn lemma_edges_none(g: Seq<RouteNode>, n: usize, m: int)
    requires
        0 <= m <= g.len(),
        forall|j: int, k: int| 0 <= j < m && 0 <= k < g[j].next_nodes@.len() ==> #[trigger] g[j].next_nodes@[k] != n,
    ensures
        edges_into(g, n, m) == 0,
    decreases m,
{
    if m > 0 {
        lemma_edges_none(g, n, m - 1);
        lemma_occ_contains(g[m - 1].next_nodes@, n);
        if g[m - 1].next_nodes@.contains(n) {
            let l = g[m - 1].next_nodes@;
            let k = choose|k: int| 0 <= k < l.len() && l[k] == n;
            assert(g[m - 1].next_nodes@[k] != n);
        }
    }
}

/// A list without repetitions holds each value at most once.
proof fn lemma_occ_unique(s: Seq<usize>, x: usize)
    requires
        s.no_duplicates(),
    ensures
        occ(s, x) <= 1,
    decreases s.len(),
{
    if s.len() > 0 {
        let t = s.drop_first();
        assert(t.no_duplicates()) by {
            assert forall|i: int, j: int| 0 <= i < t.len() && 0 <= j < t.len() && i != j implies t[i] != t[j] by {
                assert(t[i] == s[i + 1] && t[j] == s[j + 1]);
            }
        }
        lemma_occ_unique(t, x);
        if s[0] == x {
            lemma_occ_contains(t, x);
            if t.contains(x) {
                let i = choose|i: int| 0 <= i < t.len() && t[i] == x;
                assert(s[i + 1] == s[0]);
            }
        }
    }
}

/// With successor lists free of repetitions, each node has at most one edge into `n`.
pub proof fn lemma_edges_bounded(g: Seq<RouteNode>, n: usize, m: int)
    requires
        0 <= m <= g.len(),
        forall|j: int| 0 <= j < g.len() ==> #[trigger] g[j].next_nodes@.no_duplicates(),
    ensures
        edges_into(g, n, m) <= m,
    decreases m,
{
    if m > 0 {
        lemma_edges_bounded(g, n, m - 1);
        lemma_occ_unique(g[m - 1].next_nodes@, n);
    }
}

/// Number of edges into `n` in the whole route graph.
pub open spec fn in_degree(route: Seq<RouteNode>, n: usize) -> nat {
    edges_into(route, n, route.len() as int)
}

/// A route graph that can be walked: it is not empty, every successor is a node of the graph,
/// and each node's `route_count` covers the edges into it (and, for the start node 0, the walk's
/// own entry into it).
pub open spec fn walkable_route(route: Seq<RouteNode>) -> bool {
    &&& route.len() > 0
    &&& forall|j: int, k: int|
        0 <= j < route.len() && 0 <= k < route[j].next_nodes@.len() ==> #[trigger] route[j].next_nodes@[k]
            < route.len()
    &&& forall|n: usize|
        n < route.len() ==> #[trigger] in_degree(route, n) + (if n == 0 { 1nat } else { 0nat })
            <= route[n as int].route_count
}

/// One step of the walk: take the front of the queue and count one arrival at it; when the node
/// has received all its arrivals it is visited and its successors join the queue.
pub open spec fn walk_step(route: Seq<RouteNode>, counts: Seq<int>, queue: Seq<usize>, order: Seq<usize>)
    -> (Seq<int>, Seq<usize>, Seq<usize>) {
    let c = queue[0];
    let counts2 = counts.update(c as int, counts[c as int] - 1);
    if counts2[c as int] == 0 {
        (counts2, queue.drop_first() + route[c as int].next_nodes@, order.push(c))
    } else {
        (counts2, queue.drop_first(), order)
    }
}

/// The walk run for at most `fuel` steps or until the queue is empty; the visiting order.
pub open spec fn walk(route: Seq<RouteNode>, counts: Seq<int>, queue: Seq<usize>, order: Seq<usize>, fuel: nat)
    -> Seq<usize>
    decreases fuel,
{
    if fuel == 0 || queue.len() == 0 {
        order
    } else {
        let (c2, q2, o2) = walk_step(route, counts, queue, order);
        walk(route, c2, q2, o2, (fuel - 1) as nat)
    }
}

/// The route counts of the nodes.
pub open spec fn route_counts(route: Seq<RouteNode>) -> Seq<int> {
    route.map_values(|r: RouteNode| r.route_count as int)
}

/// The sum of a sequence of integers.
pub open spec fn sum_ints(s: Seq<int>) -> int
    decreases s.len(),
{
    if s.len() == 0 {
        0
    } else {
        sum_ints(s.drop_last()) + s.last()
    }
}

/// The order in which a walk of the route graph from node 0 visits its nodes: a node is visited
/// once it has been reached `route_count` times, breadth first.
pub open spec fn visit_order(route: Seq<RouteNode>) -> Seq<usize> {
    walk(route, route_counts(route), seq![0usize], Seq::empty(), (sum_ints(route_counts(route)) + 1) as nat)
}

proof fn lemma_sum_update(s: Seq<int>, i: int, v: int)
    requires
        0 <= i < s.len(),
    ensures
        sum_ints(s.update(i, v)) == sum_ints(s) - s[i] + v,
    decreases s.len(),
{
    let t = s.update(i, v);
    if i == s.len() - 1 {
        assert(t.drop_last() =~= s.drop_last());
    } else {
        assert(t.drop_last() =~= s.drop_last().update(i, v));
        lemma_sum_update(s.drop_last(), i, v);
    }
}

proof fn lemma_sum_nonneg(s: Seq<int>)
    requires
        forall|i: int| 0 <= i < s.len() ==> s[i] >= 0,
    ensures
        sum_ints(s) >= 0,
    decreases s.len(),
{
    if s.len() > 0 {
        lemma_sum_nonneg(s.drop_last());
    }
}

/// Edges into `n` that leave nodes of the first `m` that are not yet visited.
spec fn pending_into(route: Seq<RouteNode>, visited: Seq<bool>, n: usize, m: int) -> nat
    decreases m,
{
    if m <= 0 {
        0
    } else {
        pending_into(route, visited, n, m - 1) + (if visited[m - 1] {
            0nat
        } else {
            occ(route[m - 1].next_nodes@, n)
        })
    }
}

proof fn lemma_pending_initial(route: Seq<RouteNode>, visited: Seq<bool>, n: usize, m: int)
    requires
        0 <= m <= visited.len(),
        forall|i: int| 0 <= i < visited.len() ==> !visited[i],
    ensures
        pending_into(route, visited, n, m) == edges_into(route, n, m),
    decreases m,
{
    if m > 0 {
        lemma_pending_initial(route, visited, n, m - 1);
    }
}

proof fn lemma_pending_visit(route: Seq<RouteNode>, visited: Seq<bool>, c: int, n: usize, m: int)
    requires
        0 <= c < visited.len(),
        0 <= m <= visited.len(),
        !visited[c],
    ensures
        c < m ==> pending_into(route, visited.update(c, true), n, m) + occ(route[c].next_nodes@, n)
            == pending_into(route, visited, n, m),
        m <= c ==> pending_into(route, visited.update(c, true), n, m) == pending_into(route, visited, n, m),
    decreases m,
{
    if m > 0 {
        lemma_pending_visit(route, visited, c, n, m - 1);
    }
}

/// Route counts that are exact: each is the number of edges into its node (plus, for node 0,
/// the walk's entry into it), and at least one.
pub open spec fn exact_counts(route: Seq<RouteNode>) -> bool {
    &&& forall|n: usize|
        n < route.len() ==> #[trigger] route[n as int].route_count == in_degree(route, n) + (if n == 0 {
            1nat
        } else {
            0nat
        })
    &&& forall|n: int| 0 <= n < route.len() ==> #[trigger] route[n].route_count >= 1
}

/// Which nodes a visiting order has visited.
spec fn visited_flags(order: Seq<usize>, len: int) -> Seq<bool> {
    Seq::new(len as nat, |n: int| order.contains(n as usize))
}

/// A state of the walk of a route graph with exact counts: every arrival still owed to a node
/// is in the queue or comes from a node not yet visited, and a node is visited exactly when its
/// count has run out.
spec fn walk_inv(route: Seq<RouteNode>, counts: Seq<int>, queue: Seq<usize>, order: Seq<usize>) -> bool {
    let len = route.len() as int;
    let v = visited_flags(order, len);
    &&& len <= usize::MAX
    &&& counts.len() == len
    &&& forall|j: int| 0 <= j < queue.len() ==> #[trigger] queue[j] < len
    &&& forall|i: int| 0 <= i < order.len() ==> #[trigger] order[i] < len
    &&& order.no_duplicates()
    &&& forall|n: usize| n < len ==> occ(queue, n) + pending_into(route, v, n, len) == #[trigger] counts[n as int]
    &&& forall|n: int| 0 <= n < len ==> (#[trigger] v[n] ==> counts[n] == 0) && (!v[n] ==> counts[n] >= 1)
}

proof fn lemma_sum_ge(s: Seq<int>, i: int)
    requires
        0 <= i < s.len(),
        forall|j: int| 0 <= j < s.len() ==> s[j] >= 0,
    ensures
        s[i] <= sum_ints(s),
    decreases s.len(),
{
    if i < s.len() - 1 {
        lemma_sum_ge(s.drop_last(), i);
        lemma_sum_nonneg(s.drop_last());
    } else {
        lemma_sum_nonneg(s.drop_last());
    }
}

proof fn lemma_pending_source(route: Seq<RouteNode>, visited: Seq<bool>, n: usize, m: int)
    requires
        0 <= m <= visited.len(),
        pending_into(route, visited, n, m) > 0,
    ensures
        exists|p: int| 0 <= p < m && !visited[p] && #[trigger] route[p].next_nodes@.contains(n),
    decreases m,
{
    if pending_into(route, visited, n, m - 1) > 0 {
        lemma_pending_source(route, visited, n, m - 1);
    } else {
        lemma_occ_contains(route[m - 1].next_nodes@, n);
        assert(route[m - 1].next_nodes@.contains(n));
    }
}

proof fn lemma_walk_step_inv(route: Seq<RouteNode>, counts: Seq<int>, queue: Seq<usize>, order: Seq<usize>)
    requires
        walkable_route(route),
        walk_inv(route, counts, queue, order),
        queue.len() > 0,
    ensures
        walk_inv(
            route,
            walk_step(route, counts, queue, order).0,
            walk_step(route, counts, queue, order).1,
            walk_step(route, counts, queue, order).2,
        ),
        sum_ints(walk_step(route, counts, queue, order).0) == sum_ints(counts) - 1,
{
    let len = route.len() as int;
    let v = visited_flags(order, len);
    let c = queue[0];
    let (counts2, queue2, order2) = walk_step(route, counts, queue, order);
    let tail = queue.drop_first();
    assert(occ(queue, c) >= 1);
    assert(counts[c as int] >= 1);
    assert(!v[c as int]);
    assert(!order.contains(c));
    assert(counts2 == counts.update(c as int, counts[c as int] - 1));
    lemma_sum_update(counts, c as int, counts[c as int] - 1);
    assert forall|n: usize| n < len implies occ(queue, n) == (if c == n { 1nat } else { 0nat }) + occ(tail, n) by {}
    if counts2[c as int] == 0 {
        let next = route[c as int].next_nodes@;
        assert(order2 == order.push(c));
        assert(queue2 == tail + next);
        let v2 = visited_flags(order2, len);
        assert(v2 =~= v.update(c as int, true)) by {
            assert forall|n: int| 0 <= n < len implies v2[n] == v.update(c as int, true)[n] by {
                if n == c {
                    assert(order2[order.len() as int] == c);
                } else {
                    if order2.contains(n as usize) {
                        let i = choose|i: int| 0 <= i < order2.len() && order2[i] == n as usize;
                        assert(i != order.len());
                        assert(order[i] == n as usize);
                    }
                    if order.contains(n as usize) {
                        let i = choose|i: int| 0 <= i < order.len() && order[i] == n as usize;
                        assert(order2[i] == n as usize);
                    }
                }
            }
        }
        assert forall|n: usize| n < len implies occ(queue2, n) + pending_into(route, v2, n, len)
            == #[trigger] counts2[n as int] by {
            lemma_occ_concat(tail, next, n);
            lemma_pending_visit(route, v, c as int, n, len);
        }
        assert forall|j: int| 0 <= j < queue2.len() implies #[trigger] queue2[j] < len by {
            if j < tail.len() {
                assert(queue2[j] == queue[j + 1]);
            } else {
                assert(queue2[j] == next[j - tail.len()]);
            }
        }
        assert forall|i: int| 0 <= i < order2.len() implies #[trigger] order2[i] < len by {
            if i < order.len() {
                assert(order2[i] == order[i]);
            }
        }
        assert(order2.no_duplicates()) by {
            assert forall|i: int, j: int| 0 <= i < order2.len() && 0 <= j < order2.len() && i != j implies order2[i]
                != order2[j] by {
                if i == order.len() {
                    assert(order[j] != c);
                } else if j == order.len() {
                    assert(order[i] != c);
                }
            }
        }
    } else {
        assert(queue2 == tail);
        assert(order2 == order);
        assert forall|n: usize| n < len implies occ(queue2, n) + pending_into(route, v, n, len)
            == #[trigger] counts2[n as int] by {}
        assert forall|j: int| 0 <= j < queue2.len() implies #[trigger] queue2[j] < len by {
            assert(queue2[j] == queue[j + 1]);
        }
    }
}

proof fn lemma_walk_end(route: Seq<RouteNode>, counts: Seq<int>, queue: Seq<usize>, order: Seq<usize>, fuel: nat)
    requires
        walkable_route(route),
        walk_inv(route, counts, queue, order),
        fuel >= sum_ints(counts) + 1,
    ensures
        ({
            let r = walk(route, counts, queue, order, fuel);
            &&& r.no_duplicates()
            &&& forall|n: usize|
                n < route.len() && !#[trigger] r.contains(n) ==> exists|p: usize|
                    p < route.len() && !r.contains(p) && #[trigger] route[p as int].next_nodes@.contains(n)
        }),
    decreases fuel,
{
    let len = route.len() as int;
    let v = visited_flags(order, len);
    assert forall|j: int| 0 <= j < counts.len() implies counts[j] >= 0 by {
        assert(v[j] ==> counts[j] == 0);
    }
    if queue.len() == 0 {
        assert(walk(route, counts, queue, order, fuel) == order);
        assert forall|n: usize| n < len && !#[trigger] order.contains(n) implies exists|p: usize|
            p < len && !order.contains(p) && #[trigger] route[p as int].next_nodes@.contains(n) by {
            assert(!v[n as int]);
            assert(counts[n as int] >= 1);
            assert(occ(queue, n) == 0);
            assert(pending_into(route, v, n, len) == counts[n as int]);
            lemma_pending_source(route, v, n, len);
            let p = choose|p: int| 0 <= p < len && !v[p] && #[trigger] route[p].next_nodes@.contains(n);
            assert(!order.contains(p as usize));
            assert(route[(p as usize) as int].next_nodes@.contains(n));
        }
    } else {
        lemma_sum_ge(counts, queue[0] as int);
        assert(counts[queue[0] as int] >= 1) by {
            assert(occ(queue, queue[0]) >= 1);
        }
        lemma_walk_step_inv(route, counts, queue, order);
        let (c2, q2, o2) = walk_step(route, counts, queue, order);
        lemma_walk_end(route, c2, q2, o2, (fuel - 1) as nat);
    }
}

proof fn lemma_all_visited(route: Seq<RouteNode>, r: Seq<usize>, phi: Seq<int>, b: int)
    requires
        phi.len() == route.len(),
        forall|n: int| 0 <= n < phi.len() ==> #[trigger] phi[n] >= 0,
        forall|j: int, k: int|
            0 <= j < route.len() && 0 <= k < route[j].next_nodes@.len() ==> phi[#[trigger] route[j].next_nodes@[k] as int]
                > phi[j],
        forall|j: int, k: int|
            0 <= j < route.len() && 0 <= k < route[j].next_nodes@.len() ==> #[trigger] route[j].next_nodes@[k]
                < route.len(),
        forall|n: usize|
            n < route.len() && !#[trigger] r.contains(n) ==> exists|p: usize|
                p < route.len() && !r.contains(p) && #[trigger] route[p as int].next_nodes@.contains(n),
        b >= -1,
    ensures
        forall|n: usize| n < route.len() && phi[n as int] <= b ==> #[trigger] r.contains(n),
    decreases b + 1,
{
    if b >= 0 {
        lemma_all_visited(route, r, phi, b - 1);
        assert forall|n: usize| n < route.len() && phi[n as int] <= b implies #[trigger] r.contains(n) by {
            if !r.contains(n) {
                let p = choose|p: usize|
                    p < route.len() && !r.contains(p) && #[trigger] route[p as int].next_nodes@.contains(n);
                let k = choose|k: int| 0 <= k < route[p as int].next_nodes@.len() && route[p as int].next_nodes@[k] == n;
                assert(phi[route[p as int].next_nodes@[k] as int] > phi[p as int]);
                assert(route[p as int].next_nodes@[k] < route.len());
            }
        }
    }
}

/// Walking a route graph from node 0 visits every node once when its route counts are exact and
/// its edges climb some potential: no node is left waiting for an arrival that never comes.
pub proof fn lemma_walk_visits_all(route: Seq<RouteNode>, phi: Seq<int>)
    requires
        walkable_route(route),
        exact_counts(route),
        route.len() <= usize::MAX,
        phi.len() == route.len(),
        forall|n: int| 0 <= n < phi.len() ==> #[trigger] phi[n] >= 0,
        forall|j: int, k: int|
            0 <= j < route.len() && 0 <= k < route[j].next_nodes@.len() ==> phi[#[trigger] route[j].next_nodes@[k] as int]
                > phi[j],
    ensures
        forall|n: usize| n < route.len() ==> #[trigger] visit_order(route).contains(n),
        visit_order(route).no_duplicates(),
{
    let len = route.len() as int;
    let counts = route_counts(route);
    let queue = seq![0usize];
    let order = Seq::<usize>::empty();
    let v = visited_flags(order, len);
    assert forall|n: usize| n < len implies occ(queue, n) + pending_into(route, v, n, len) == #[trigger] counts[n as int] by {
        lemma_pending_initial(route, v, n, len);
        assert(queue.drop_first() =~= Seq::<usize>::empty());
        assert(occ(queue.drop_first(), n) == 0);
        assert(route[n as int].route_count == in_degree(route, n) + (if n == 0 { 1nat } else { 0nat }));
    }
    assert forall|n: int| 0 <= n < len implies (#[trigger] v[n] ==> counts[n] == 0) && (!v[n] ==> counts[n] >= 1) by {
        assert(route[n].route_count >= 1);
    }
    assert(walk_inv(route, counts, queue, order));
    assert forall|j: int| 0 <= j < counts.len() implies counts[j] >= 0 by {
        assert(route[j].route_count >= 1);
    }
    lemma_sum_nonneg(counts);
    lemma_walk_end(route, counts, queue, order, (sum_ints(counts) + 1) as nat);
    let r = visit_order(route);
    assert forall|n: usize| n < len implies #[trigger] r.contains(n) by {
        lemma_all_visited(route, r, phi, phi[n as int]);
    }
}

/// Walks the route graph from node 0 and gives the nodes in the order in which they are visited:
/// a node is visited when it has been reached as often as its `route_count`, and its successors are
/// then queued in order. Each node is visited at most once.
pub fn iterate_route(route: &Vec<RouteNode>) -> (order: Vec<usize>)
    requires
        walkable_route(route@),
    ensures
        order@ == visit_order(route@),
        order@.no_duplicates(),
        forall|i: int| 0 <= i < order@.len() ==> order@[i] < route@.len(),
{
    let ghost r = route@;
    let len = route.len();
    let mut num_routes: Vec<u32> = Vec::with_capacity(len);
    let mut i: usize = 0;
    while i < len
        invariant
            len == route@.len(),
            i <= len,
            num_routes@.len() == i,
            forall|j: int| 0 <= j < i ==> num_routes@[j] == route@[j].route_count,
        decreases len - i,
    {
        num_routes.push(route[i].route_count);
        i += 1;
    }
    let ghost init_counts = route_counts(r);
    assert(num_routes@.map_values(|x: u32| x as int) =~= init_counts);

    let mut queue: Vec<usize> = Vec::new();
    queue.push(0);
    let mut head: usize = 0;
    let mut order: Vec<usize> = Vec::new();
    let ghost mut visited: Seq<bool> = Seq::new(len as nat, |i: int| false);

    proof {
        lemma_sum_nonneg(init_counts);
        assert(queue@.skip(0) =~= seq![0usize]);
        assert(seq![0usize].drop_first() =~= Seq::<usize>::empty());
        assert forall|n: usize| n < len implies occ(queue@.skip(0), n) + pending_into(r, visited, n, len as int)
            <= num_routes@[n as int] by {
            lemma_pending_initial(r, visited, n, len as int);
            assert(occ(Seq::<usize>::empty(), n) == 0);
            assert(seq![0usize][0] == 0);
            assert(occ(seq![0usize], n) == (if n == 0 { 1nat } else { 0nat }));
            assert(in_degree(r, n) + (if n == 0 { 1nat } else { 0nat }) <= r[n as int].route_count);
        }
    }

    while head < queue.len()
        invariant
            r == route@,
            walkable_route(r),
            len == r.len(),
            num_routes@.len() == len,
            visited.len() == len,
            head <= queue@.len(),
            forall|j: int| head <= j < queue@.len() ==> queue@[j] < len,
            forall|n: usize| n < len ==> occ(#[trigger] queue@.skip(head as int), n) + pending_into(r, visited, n, len as int)
                <= num_routes@[n as int],
            forall|c: int| 0 <= c < len && visited[c] ==> num_routes@[c] == 0,
            forall|c: usize| c < len ==> (visited[c as int] <==> order@.contains(c)),
            order@.no_duplicates(),
            forall|i: int| 0 <= i < order@.len() ==> order@[i] < len,
            sum_ints(num_routes@.map_values(|x: u32| x as int)) >= 0,
            walk(r, num_routes@.map_values(|x: u32| x as int), queue@.skip(head as int), order@,
                (sum_ints(num_routes@.map_values(|x: u32| x as int)) + 1) as nat) == visit_order(r),
        decreases sum_ints(num_routes@.map_values(|x: u32| x as int)),
    {
        let curr = queue[head];
        let ghost tail = queue@.skip(head as int);
        let ghost counts = num_routes@.map_values(|x: u32| x as int);
        proof {
            assert(tail[0] == curr);
            assert(occ(tail, curr) >= 1);
        }
        head = head + 1;
        let ghost tail2 = queue@.skip(head as int);
        assert(tail2 =~= tail.drop_first());

        num_routes.set(curr, num_routes[curr] - 1);
        let ghost counts2 = num_routes@.map_values(|x: u32| x as int);
        proof {
            assert(counts2 =~= counts.update(curr as int, counts[curr as int] - 1));
            lemma_sum_update(counts, curr as int, counts[curr as int] - 1);
            assert forall|n: usize| n < len implies occ(#[trigger] queue@.skip(head as int), n)
                + pending_into(r, visited, n, len as int) <= num_routes@[n as int] by {
                assert(occ(tail, n) == (if curr == n { 1nat } else { 0nat }) + occ(tail2, n));
            }
        }

        if num_routes[curr] == 0 {
            let ghost old_visited = visited;
            let ghost qlen = queue@.len();
            let ghost old_queue = queue@;
            let ghost old_order = order@;
            proof {
                assert(!visited[curr as int]);
                assert(!order@.contains(curr));
                visited = visited.update(curr as int, true);
            }
            order.push(curr);
            let nexts = &route[curr].next_nodes;
            let mut k: usize = 0;
            while k < nexts.len()
                invariant
                    r == route@,
                    walkable_route(r),
                    len == r.len(),
                    curr < len,
                    nexts@ == r[curr as int].next_nodes@,
                    k <= nexts@.len(),
                    head <= qlen,
                    qlen <= queue@.len(),
                    qlen == old_queue.len(),
                    queue@ =~= old_queue + nexts@.subrange(0, k as int),
                    forall|j: int| head <= j < queue@.len() ==> queue@[j] < len,
                decreases nexts.len() - k,
            {
                queue.push(nexts[k]);
                k += 1;
            }
            proof {
                let newtail = queue@.skip(head as int);
                assert(nexts@.subrange(0, nexts@.len() as int) =~= nexts@);
                assert(old_queue.skip(head as int) =~= tail2);
                assert(newtail =~= tail2 + nexts@);
                assert forall|n: usize| n < len implies occ(#[trigger] queue@.skip(head as int), n)
                    + pending_into(r, visited, n, len as int) <= num_routes@[n as int] by {
                    lemma_occ_concat(tail2, nexts@, n);
                    lemma_pending_visit(r, old_visited, curr as int, n, len as int);
                }
                assert forall|c: usize| c < len implies (visited[c as int] <==> order@.contains(c)) by {
                    assert(order@ =~= old_order.push(curr));
                    if c != curr {
                        if order@.contains(c) {
                            let i = choose|i: int| 0 <= i < order@.len() && order@[i] == c;
                            assert(old_order[i] == c);
                        }
                        if old_visited[c as int] {
                            let i = choose|i: int| 0 <= i < old_order.len() && old_order[i] == c;
                            assert(order@[i] == c);
                        }
                    } else {
                        assert(order@[order@.len() - 1] == c);
                    }
                }
            }
        } else {
            proof {
                assert(curr < len);
            }
        }
        proof {
            lemma_sum_nonneg(num_routes@.map_values(|x: u32| x as int));
        }
    }
    proof {
        assert(queue@.skip(head as int).len() == 0);
    }
    order
}

} // verus!
