//! Putting the nodes of a graph into dependency order.

use vstd::prelude::*;

verus! {

/// Every edge joins two of the nodes `0..n`.
pub open spec fn edges_in(edges: Seq<(usize, usize)>, n: int) -> bool {
    forall|k: int| 0 <= k < edges.len() ==> (#[trigger] edges[k]).0 < n && edges[k].1 < n
}

/// A list of nodes `0..n`, each at most once.
pub open spec fn nodes_once(order: Seq<usize>, n: int) -> bool {
    &&& order.no_duplicates()
    &&& forall|i: int| 0 <= i < order.len() ==> #[trigger] order[i] < n
}

/// All nodes `0..n` in an order in which every edge leads forward.
pub open spec fn dependency_order(
    order: Seq<usize>,
    edges: Seq<(usize, usize)>,
    n: int,
) -> bool {
    &&& order.len() == n
    &&& nodes_once(order, n)
    &&& forall|i: int, j: int|
        0 <= i < n && 0 <= j < n && #[trigger] edges.contains((order[i], order[j])) ==> i < j
}

/// A walk along edges that ends where it began.
pub open spec fn closed_walk(walk: Seq<usize>, edges: Seq<(usize, usize)>) -> bool {
    &&& walk.len() >= 2
    &&& walk[0] == walk[walk.len() - 1]
    &&& forall|i: int| 0 <= i < walk.len() - 1 ==> #[trigger] follows(walk, edges, i)
}

/// An edge leads from the `i`-th node of the walk to the next.
pub open spec fn follows(walk: Seq<usize>, edges: Seq<(usize, usize)>, i: int) -> bool {
    edges.contains((walk[i], walk[i + 1]))
}

/// The graph has a cycle.
pub open spec fn cyclic(edges: Seq<(usize, usize)>) -> bool {
    exists|walk: Seq<usize>| closed_walk(walk, edges)
}

/// Number of edges among the first `m` into `v` whose origin is still to come: it is not in
/// `order`, and it is not `node` with one of the first `k` edges.
spec fn waiting(
    edges: Seq<(usize, usize)>,
    order: Seq<usize>,
    node: usize,
    k: int,
    v: usize,
    m: int,
) -> int
    decreases m,
{
    if m <= 0 {
        0
    } else {
        waiting(edges, order, node, k, v, m - 1) + if edges[m - 1].1 == v && !order.contains(
            edges[m - 1].0,
        ) && !(edges[m - 1].0 == node && m - 1 < k) {
            1int
        } else {
            0
        }
    }
}

proof fn lemma_waiting_bounds(
    edges: Seq<(usize, usize)>,
    order: Seq<usize>,
    node: usize,
    k: int,
    v: usize,
    m: int,
)
    requires
        0 <= m <= edges.len(),
    ensures
        0 <= waiting(edges, order, node, k, v, m) <= m,
    decreases m,
{
    if m > 0 {
        lemma_waiting_bounds(edges, order, node, k, v, m - 1);
    }
}

/// One more edge out of `node` is settled.
proof fn lemma_waiting_step(
    edges: Seq<(usize, usize)>,
    order: Seq<usize>,
    node: usize,
    k: int,
    v: usize,
    m: int,
)
    requires
        0 <= m <= edges.len(),
        0 <= k < edges.len(),
        !order.contains(node),
    ensures
        waiting(edges, order, node, k + 1, v, m) == waiting(edges, order, node, k, v, m) - if k < m
            && edges[k].0 == node && edges[k].1 == v {
            1int
        } else {
            0
        },
    decreases m,
{
    if m > 0 {
        lemma_waiting_step(edges, order, node, k, v, m - 1);
    }
}

/// Once all edges out of `node` are settled, `node` may join the order.
proof fn lemma_waiting_join(
    edges: Seq<(usize, usize)>,
    order: Seq<usize>,
    node: usize,
    other: usize,
    v: usize,
    m: int,
)
    requires
        0 <= m <= edges.len(),
    ensures
        waiting(edges, order.push(node), other, 0, v, m) == waiting(
            edges,
            order,
            node,
            edges.len() as int,
            v,
            m,
        ),
    decreases m,
{
    if m > 0 {
        lemma_waiting_join(edges, order, node, other, v, m - 1);
        let u = edges[m - 1].0;
        let all = order.push(node);
        assert(all.contains(u) <==> order.contains(u) || u == node) by {
            if order.contains(u) {
                let i = choose|i: int| 0 <= i < order.len() && order[i] == u;
                assert(all[i] == u);
            }
            if u == node {
                assert(all[order.len() as int] == u);
            }
            if all.contains(u) && u != node {
                let i = choose|i: int| 0 <= i < all.len() && all[i] == u;
                assert(order[i] == u);
            }
        }
    }
}

/// With nothing settled, it does not matter which node is next.
proof fn lemma_waiting_any(
    edges: Seq<(usize, usize)>,
    order: Seq<usize>,
    node: usize,
    other: usize,
    v: usize,
    m: int,
)
    requires
        0 <= m <= edges.len(),
    ensures
        waiting(edges, order, node, 0, v, m) == waiting(edges, order, other, 0, v, m),
    decreases m,
{
    if m > 0 {
        lemma_waiting_any(edges, order, node, other, v, m - 1);
    }
}

/// A node that waits for nothing has all its predecessors in the order.
proof fn lemma_waiting_none(
    edges: Seq<(usize, usize)>,
    order: Seq<usize>,
    node: usize,
    v: usize,
    m: int,
    j: int,
)
    requires
        0 <= j < m <= edges.len(),
        waiting(edges, order, node, 0, v, m) == 0,
        edges[j].1 == v,
    ensures
        order.contains(edges[j].0),
    decreases m,
{
    lemma_waiting_bounds(edges, order, node, 0, v, m - 1);
    if j < m - 1 {
        lemma_waiting_none(edges, order, node, v, m - 1, j);
    }
}

/// A node that waits for something has a predecessor outside the order.
proof fn lemma_waiting_some(
    edges: Seq<(usize, usize)>,
    order: Seq<usize>,
    node: usize,
    v: usize,
    m: int,
) -> (j: int)
    requires
        0 <= m <= edges.len(),
        waiting(edges, order, node, 0, v, m) > 0,
    ensures
        0 <= j < m,
        edges[j].1 == v,
        !order.contains(edges[j].0),
    decreases m,
{
    if edges[m - 1].1 == v && !order.contains(edges[m - 1].0) {
        m - 1
    } else {
        lemma_waiting_some(edges, order, node, v, m - 1)
    }
}

/// The nodes `0..n`.
spec fn node_set(n: int) -> Set<usize> {
    Set::new(|v: usize| v < n)
}

proof fn lemma_node_set(n: int)
    requires
        0 <= n <= usize::MAX,
    ensures
        node_set(n).finite(),
        node_set(n).len() == n,
    decreases n,
{
    if n == 0 {
        assert(node_set(0) =~= Set::empty());
    } else {
        lemma_node_set(n - 1);
        assert(node_set(n) =~= node_set(n - 1).insert((n - 1) as usize));
    }
}

/// No more than `n` nodes can be listed without repetition.
proof fn lemma_pigeonhole(list: Seq<usize>, n: int)
    requires
        0 <= n <= usize::MAX,
        nodes_once(list, n),
    ensures
        list.len() <= n,
        list.len() == n ==> forall|v: usize| v < n ==> #[trigger] list.contains(v),
{
    lemma_node_set(n);
    list.unique_seq_to_set();
    let s = list.to_set();
    assert(s.subset_of(node_set(n))) by {
        assert forall|v: usize| s.contains(v) implies node_set(n).contains(v) by {
            let i = choose|i: int| 0 <= i < list.len() && list[i] == v;
            assert(list[i] < n);
        }
    }
    vstd::set_lib::lemma_len_subset(s, node_set(n));
    if list.len() == n {
        assert forall|v: usize| v < n implies #[trigger] list.contains(v) by {
            vstd::set_lib::lemma_subset_equality(s, node_set(n));
            assert(node_set(n).contains(v));
            assert(s.contains(v));
        }
    }
}

/// A walk backward from `v`: `m` steps, each to a predecessor outside the order.
spec fn backward(walk: Seq<usize>, edges: Seq<(usize, usize)>, order: Seq<usize>, n: int) -> bool {
    &&& forall|i: int|
        0 <= i < walk.len() ==> #[trigger] walk[i] < n && !order.contains(walk[i])
    &&& forall|i: int| 0 <= i < walk.len() - 1 ==> #[trigger] leads(walk, edges, i)
}

/// An edge leads to the `i`-th node of the walk from the next.
spec fn leads(walk: Seq<usize>, edges: Seq<(usize, usize)>, i: int) -> bool {
    edges.contains((walk[i + 1], walk[i]))
}

proof fn lemma_backward(
    edges: Seq<(usize, usize)>,
    order: Seq<usize>,
    n: int,
    v: usize,
    m: nat,
) -> (walk: Seq<usize>)
    requires
        edges_in(edges, n),
        v < n,
        !order.contains(v),
        forall|u: usize|
            u < n && !order.contains(u) ==> #[trigger] waiting(
                edges,
                order,
                0,
                0,
                u,
                edges.len() as int,
            ) > 0,
    ensures
        backward(walk, edges, order, n),
        walk.len() == m + 1,
    decreases m,
{
    if m == 0 {
        seq![v]
    } else {
        let prev = lemma_backward(edges, order, n, v, (m - 1) as nat);
        let u = prev[prev.len() - 1];
        assert(waiting(edges, order, 0, 0, u, edges.len() as int) > 0);
        let j = lemma_waiting_some(edges, order, 0, u, edges.len() as int);
        let walk = prev.push(edges[j].0);
        assert forall|i: int| 0 <= i < walk.len() - 1 implies #[trigger] leads(walk, edges, i) by {
            if i < prev.len() - 1 {
                assert(leads(prev, edges, i));
            } else {
                assert(edges[j] == (walk[i + 1], walk[i]));
            }
        }
        assert forall|i: int| 0 <= i < walk.len() implies #[trigger] walk[i] < n && !order.contains(
            walk[i],
        ) by {
            if i < prev.len() {
                assert(prev[i] < n);
            }
        }
        walk
    }
}

/// If every node outside the order waits for one outside it, and there is such a node, the graph
/// has a cycle.
proof fn lemma_stuck(edges: Seq<(usize, usize)>, order: Seq<usize>, n: int, v: usize)
    requires
        edges_in(edges, n),
        v < n <= usize::MAX,
        !order.contains(v),
        forall|u: usize|
            u < n && !order.contains(u) ==> #[trigger] waiting(
                edges,
                order,
                0,
                0,
                u,
                edges.len() as int,
            ) > 0,
    ensures
        cyclic(edges),
{
    let back = lemma_backward(edges, order, n, v, n as nat);
    if back.no_duplicates() {
        lemma_pigeonhole(back, n);
    }
    let (i, j): (int, int) = choose|i: int, j: int|
        0 <= i < back.len() && 0 <= j < back.len() && i != j && back[i] == back[j];
    let (lo, hi) = if i < j {
        (i, j)
    } else {
        (j, i)
    };
    let walk = Seq::new((hi - lo + 1) as nat, |k: int| back[hi - k]);
    assert forall|k: int| 0 <= k < walk.len() - 1 implies #[trigger] follows(walk, edges, k) by {
        assert(leads(back, edges, hi - k - 1));
    }
    assert(closed_walk(walk, edges));
}

/// In a dependency order a walk only moves forward.
proof fn lemma_forward(
    order: Seq<usize>,
    edges: Seq<(usize, usize)>,
    n: int,
    walk: Seq<usize>,
    k: int,
    at: int,
) -> (end: int)
    requires
        n <= usize::MAX,
        edges_in(edges, n),
        dependency_order(order, edges, n),
        0 <= k < walk.len(),
        forall|i: int| 0 <= i < walk.len() - 1 ==> #[trigger] follows(walk, edges, i),
        0 <= at < n,
        order[at] == walk[0],
    ensures
        0 <= end < n,
        order[end] == walk[k],
        k > 0 ==> at < end,
    decreases k,
{
    if k == 0 {
        at
    } else {
        let mid = lemma_forward(order, edges, n, walk, k - 1, at);
        assert(follows(walk, edges, k - 1));
        let e = choose|e: int| 0 <= e < edges.len() && edges[e] == (walk[k - 1], walk[k]);
        lemma_pigeonhole(order, n);
        assert(order.contains(walk[k]));
        let end = choose|i: int| 0 <= i < order.len() && order[i] == walk[k];
        assert(edges.contains((order[mid], order[end])));
        end
    }
}

/// A dependency order holds every node.
pub proof fn lemma_order_complete(
    order: Seq<usize>,
    edges: Seq<(usize, usize)>,
    n: int,
    v: usize,
) -> (i: int)
    requires
        v < n <= usize::MAX,
        dependency_order(order, edges, n),
    ensures
        0 <= i < n,
        order[i] == v,
{
    lemma_pigeonhole(order, n);
    assert(order.contains(v));
    choose|i: int| 0 <= i < order.len() && order[i] == v
}

/// A graph with a cycle has no dependency order.
pub proof fn law_cycle_has_no_order(order: Seq<usize>, edges: Seq<(usize, usize)>, n: int)
    requires
        n <= usize::MAX,
        edges_in(edges, n),
        dependency_order(order, edges, n),
    ensures
        !cyclic(edges),
{
    if cyclic(edges) {
        let walk = choose|walk: Seq<usize>| closed_walk(walk, edges);
        assert(follows(walk, edges, 0));
        let e = choose|e: int| 0 <= e < edges.len() && edges[e] == (walk[0], walk[1]);
        lemma_pigeonhole(order, n);
        assert(order.contains(walk[0]));
        let at = choose|i: int| 0 <= i < order.len() && order[i] == walk[0];
        let end = lemma_forward(order, edges, n, walk, walk.len() - 1, at);
        assert(order[at] == order[end]);
    }
}

/// The graph has a cycle.
#[derive(Debug, Clone, Copy, PartialEq, Eq, Structural)]
pub struct Cycle;

/// The order so far, what is ready to join it, and what each node waits for.
spec fn progress(
    edges: Seq<(usize, usize)>,
    n: int,
    order: Seq<usize>,
    queue: Seq<usize>,
    indegree: Seq<usize>,
    node: usize,
    k: int,
) -> bool {
    &&& indegree.len() == n
    &&& forall|v: usize|
        v < n ==> #[trigger] indegree[v as int] == waiting(
            edges,
            order,
            node,
            k,
            v,
            edges.len() as int,
        )
    &&& nodes_once(order + queue, n)
    &&& settled(edges, order)
}

/// Every node of the order comes after its predecessors.
spec fn settled(edges: Seq<(usize, usize)>, order: Seq<usize>) -> bool {
    forall|i: int, e: int|
        0 <= i < order.len() && 0 <= e < edges.len() && (#[trigger] edges[e]).1
            == #[trigger] order[i] ==> order.take(i).contains(edges[e].0)
}

/// A node joins the order after its predecessors.
proof fn lemma_settled(edges: Seq<(usize, usize)>, order: Seq<usize>, node: usize)
    requires
        settled(edges, order),
        forall|e: int|
            0 <= e < edges.len() && (#[trigger] edges[e]).1 == node ==> order.contains(edges[e].0),
    ensures
        settled(edges, order.push(node)),
{
    let all = order.push(node);
    assert forall|i: int, e: int|
        0 <= i < all.len() && 0 <= e < edges.len() && (#[trigger] edges[e]).1
            == #[trigger] all[i] implies all.take(i).contains(edges[e].0) by {
        if i < order.len() {
            assert(order[i] == all[i]);
            assert(all.take(i) =~= order.take(i));
        } else {
            assert(all.take(i) =~= order);
        }
    }
}

/// The nodes that wait for nothing, in ascending order.
fn ready_nodes(indegree: &Vec<usize>) -> (queue: Vec<usize>)
    ensures
        nodes_once(queue@, indegree@.len() as int),
        forall|v: usize|
            v < indegree@.len() ==> (#[trigger] indegree@[v as int] == 0 <==> queue@.contains(v)),
{
    let mut queue: Vec<usize> = Vec::new();
    let mut i: usize = 0;
    while i < indegree.len()
        invariant
            i <= indegree.len(),
            nodes_once(queue@, i as int),
            forall|v: usize|
                v < i ==> (#[trigger] indegree@[v as int] == 0 <==> queue@.contains(v)),
        decreases indegree.len() - i,
    {
        let ghost before = queue@;
        if indegree[i] == 0 {
            queue.push(i);
            proof {
                assert forall|v: usize| v <= i implies (#[trigger] indegree@[v as int] == 0
                    <==> queue@.contains(v)) by {
                    lemma_push_contains(before, i, v);
                    if v == i {
                    } else {
                        assert(indegree@[v as int] == 0 <==> before.contains(v));
                    }
                }
            }
        } else {
            assert(!queue@.contains(i));
        }
        i = i + 1;
    }
    queue
}

proof fn lemma_push_contains(s: Seq<usize>, x: usize, v: usize)
    ensures
        s.push(x).contains(v) <==> s.contains(v) || v == x,
{
    let t = s.push(x);
    if s.contains(v) {
        let i = choose|i: int| 0 <= i < s.len() && s[i] == v;
        assert(t[i] == v);
    }
    if v == x {
        assert(t[s.len() as int] == v);
    }
    if t.contains(v) && v != x {
        let i = choose|i: int| 0 <= i < t.len() && t[i] == v;
        assert(s[i] == v);
    }
}

proof fn lemma_add_contains(a: Seq<usize>, b: Seq<usize>, v: usize)
    ensures
        (a + b).contains(v) <==> a.contains(v) || b.contains(v),
{
    let t = a + b;
    if a.contains(v) {
        let i = choose|i: int| 0 <= i < a.len() && a[i] == v;
        assert(t[i] == v);
    }
    if b.contains(v) {
        let i = choose|i: int| 0 <= i < b.len() && b[i] == v;
        assert(t[a.len() + i] == v);
    }
    if t.contains(v) {
        let i = choose|i: int| 0 <= i < t.len() && t[i] == v;
        if i < a.len() {
            assert(a[i] == v);
        } else {
            assert(b[i - a.len()] == v);
        }
    }
}

/// Counts the edges into each node.
fn indegrees(n: usize, edges: &Vec<(usize, usize)>) -> (indegree: Vec<usize>)
    requires
        edges_in(edges@, n as int),
    ensures
        indegree@.len() == n,
        forall|v: usize|
            v < n ==> #[trigger] indegree@[v as int] == waiting(
                edges@,
                Seq::empty(),
                0,
                0,
                v,
                edges@.len() as int,
            ),
{
    let mut indegree: Vec<usize> = vec![0;n];
    let mut k: usize = 0;
    while k < edges.len()
        invariant
            k <= edges.len(),
            edges_in(edges@, n as int),
            indegree@.len() == n,
            forall|v: usize|
                v < n ==> #[trigger] indegree@[v as int] == waiting(
                    edges@,
                    Seq::empty(),
                    0,
                    0,
                    v,
                    k as int,
                ),
        decreases edges.len() - k,
    {
        let to: usize = edges[k].1;
        proof {
            lemma_waiting_bounds(edges@, Seq::empty(), 0, 0, to, k as int);
            assert(indegree@[to as int] == waiting(edges@, Seq::empty(), 0, 0, to, k as int));
        }
        let ghost before = indegree@;
        let d: usize = indegree[to] + 1;
        indegree.set(to, d);
        proof {
            assert forall|v: usize| v < n implies #[trigger] indegree@[v as int] == waiting(
                edges@,
                Seq::empty(),
                0,
                0,
                v,
                k + 1,
            ) by {
                assert(before[v as int] == waiting(edges@, Seq::empty(), 0, 0, v, k as int));
            }
        }
        k = k + 1;
    }
    indegree
}

/// Settles the edges out of `node`: what waited for nothing else becomes ready.
fn settle(
    node: usize,
    n: usize,
    edges: &Vec<(usize, usize)>,
    indegree: &mut Vec<usize>,
    queue: &mut Vec<usize>,
    Ghost(order): Ghost<Seq<usize>>,
)
    requires
        edges_in(edges@, n as int),
        !order.contains(node),
        node < n,
        !old(queue)@.contains(node),
        progress(edges@, n as int, order, old(queue)@, old(indegree)@, node, 0),
        forall|v: usize|
            v < n ==> (#[trigger] old(indegree)@[v as int] == 0 <==> order.contains(v) || old(
                queue,
            )@.contains(v) || v == node),
        forall|e: int|
            0 <= e < edges@.len() && (#[trigger] edges@[e]).1 == node ==> order.contains(
                edges@[e].0,
            ),
    ensures
        progress(
            edges@,
            n as int,
            order.push(node),
            final(queue)@,
            final(indegree)@,
            node,
            0,
        ),
        forall|v: usize|
            v < n ==> (#[trigger] final(indegree)@[v as int] == 0 <==> order.push(node).contains(v)
                || final(queue)@.contains(v)),
{
    let mut k: usize = 0;
    while k < edges.len()
        invariant
            k <= edges.len(),
            edges_in(edges@, n as int),
            !order.contains(node),
            node < n,
            !queue@.contains(node),
            progress(edges@, n as int, order, queue@, indegree@, node, k as int),
            forall|v: usize|
                v < n ==> (#[trigger] indegree@[v as int] == 0 <==> order.contains(v)
                    || queue@.contains(v) || v == node),
            forall|e: int|
                0 <= e < edges@.len() && (#[trigger] edges@[e]).1 == node ==> order.contains(
                    edges@[e].0,
                ),
        decreases edges.len() - k,
    {
        let ghost before = indegree@;
        let ghost queue0 = queue@;
        let ghost m = edges@.len() as int;
        let from: usize = edges[k].0;
        let to: usize = edges[k].1;
        proof {
            assert forall|v: usize| v < n implies waiting(edges@, order, node, k + 1, v, m)
                == #[trigger] before[v as int] - if from == node && to == v {
                1int
            } else {
                0
            } by {
                lemma_waiting_step(edges@, order, node, k as int, v, m);
            }
            lemma_waiting_bounds(edges@, order, node, k + 1, to, m);
            assert(before[to as int] >= 0);
        }
        if from == node {
            assert(before[to as int] >= 1);
            let d: usize = indegree[to] - 1;
            indegree.set(to, d);
            if d == 0 {
                proof {
                    assert(before[to as int] != 0);
                    assert(!order.contains(to) && !queue0.contains(to) && to != node);
                }
                queue.push(to);
                proof {
                    lemma_queue_push(order, queue0, to, n as int);
                    assert forall|v: usize| v < n implies (#[trigger] indegree@[v as int] == 0
                        <==> order.contains(v) || queue@.contains(v) || v == node) by {
                        lemma_push_contains(queue0, to, v);
                        assert(before[v as int] == 0 <==> order.contains(v) || queue0.contains(v)
                            || v == node);
                    }
                    lemma_push_contains(queue0, to, node);
                }
            } else {
                proof {
                    assert forall|v: usize| v < n implies (#[trigger] indegree@[v as int] == 0
                        <==> order.contains(v) || queue@.contains(v) || v == node) by {
                        assert(before[v as int] == 0 <==> order.contains(v) || queue0.contains(v)
                            || v == node);
                    }
                }
            }
        }
        proof {
            assert forall|v: usize| v < n implies #[trigger] indegree@[v as int] == waiting(
                edges@,
                order,
                node,
                k + 1,
                v,
                m,
            ) by {
                assert(before[v as int] == waiting(edges@, order, node, k as int, v, m));
            }
        }
        k = k + 1;
    }
    proof {
        let all = order.push(node);
        lemma_settled(edges@, order, node);
        assert forall|v: usize| v < n implies #[trigger] indegree@[v as int] == waiting(
            edges@,
            all,
            node,
            0,
            v,
            edges@.len() as int,
        ) by {
            lemma_waiting_join(edges@, order, node, node, v, edges@.len() as int);
        }
        assert forall|v: usize| v < n implies (#[trigger] indegree@[v as int] == 0 <==> all.contains(
            v,
        ) || queue@.contains(v)) by {
            lemma_push_contains(order, node, v);
        }
        lemma_order_push(order, queue@, node, n as int);
    }
}

/// A new node at the end of the queue.
proof fn lemma_queue_push(order: Seq<usize>, queue: Seq<usize>, x: usize, n: int)
    requires
        nodes_once(order + queue, n),
        x < n,
        !order.contains(x),
        !queue.contains(x),
    ensures
        nodes_once(order + queue.push(x), n),
{
    let a = order + queue;
    let b = order + queue.push(x);
    assert(b =~= a.push(x));
    lemma_add_contains(order, queue, x);
    assert forall|i: int, j: int| 0 <= i < b.len() && 0 <= j < b.len() && i != j implies b[i]
        != b[j] by {
        if i < a.len() {
            assert(a.contains(a[i]));
        }
        if j < a.len() {
            assert(a.contains(a[j]));
        }
    }
}

/// A node joins the order.
proof fn lemma_order_push(order: Seq<usize>, queue: Seq<usize>, x: usize, n: int)
    requires
        nodes_once(order + queue, n),
        x < n,
        !order.contains(x),
        !queue.contains(x),
    ensures
        nodes_once(order.push(x) + queue, n),
{
    let b = order.push(x) + queue;
    let a = order + queue;
    let m = order.len() as int;
    lemma_add_contains(order, queue, x);
    assert forall|i: int| 0 <= i < b.len() implies #[trigger] b[i] < n && (i < m ==> b[i] == a[i])
        && (i > m ==> b[i] == a[i - 1]) by {
        if i < m {
            assert(a[i] == order[i]);
        } else if i > m {
            assert(a[i - 1] == queue[i - 1 - m]);
        }
    }
    assert forall|i: int, j: int| 0 <= i < b.len() && 0 <= j < b.len() && i != j implies b[i]
        != b[j] by {
        let p = if i < m {
            i
        } else {
            i - 1
        };
        let q = if j < m {
            j
        } else {
            j - 1
        };
        if i == m {
            assert(a.contains(a[q]));
        } else if j == m {
            assert(a.contains(a[p]));
        } else {
            assert(a[p] != a[q]);
        }
    }
}

/// Kahn's algorithm; returns nodes in dependency order or [`Cycle`].
pub fn topo_sort(n: usize, edges: &Vec<(usize, usize)>) -> (res: Result<Vec<usize>, Cycle>)
    requires
        edges_in(edges@, n as int),
    ensures
        match res {
            Ok(order) => dependency_order(order@, edges@, n as int),
            Err(_) => true,
        },
        res is Err <==> cyclic(edges@),
{
    let mut indegree = indegrees(n, edges);
    let mut queue = ready_nodes(&indegree);
    let mut order: Vec<usize> = Vec::new();
    proof {
        assert(order@ + queue@ =~= queue@);
        assert(order@ =~= Seq::empty());
    }
    while queue.len() > 0
        invariant
            edges_in(edges@, n as int),
            progress(edges@, n as int, order@, queue@, indegree@, 0, 0),
            forall|v: usize|
                v < n ==> (#[trigger] indegree@[v as int] == 0 <==> order@.contains(v)
                    || queue@.contains(v)),
        decreases n - order@.len(),
    {
        let ghost before = queue@;
        let ghost order0 = order@;
        let ghost m = edges@.len() as int;
        proof {
            lemma_pigeonhole(order@ + queue@, n as int);
        }
        let last = queue.pop();
        let node: usize = match last {
            Some(node) => node,
            None => 0,
        };
        proof {
            lemma_popped(order0, before, queue@, node, n as int);
            assert(indegree@[node as int] == 0);
            assert(waiting(edges@, order0, 0, 0, node, m) == 0);
            assert forall|e: int|
                0 <= e < edges@.len() && (#[trigger] edges@[e]).1 == node implies order0.contains(
                edges@[e].0,
            ) by {
                lemma_waiting_none(edges@, order0, 0, node, m, e);
            }
            assert forall|v: usize| v < n implies #[trigger] indegree@[v as int] == waiting(
                edges@,
                order0,
                node,
                0,
                v,
                m,
            ) by {
                lemma_waiting_any(edges@, order0, 0, node, v, m);
            }
            assert forall|v: usize| v < n implies (#[trigger] indegree@[v as int] == 0
                <==> order0.contains(v) || queue@.contains(v) || v == node) by {
                lemma_push_contains(queue@, node, v);
            }
        }
        settle(node, n, edges, &mut indegree, &mut queue, Ghost(order0));
        order.push(node);
        proof {
            assert forall|v: usize| v < n implies #[trigger] indegree@[v as int] == waiting(
                edges@,
                order@,
                0,
                0,
                v,
                m,
            ) by {
                lemma_waiting_any(edges@, order@, node, 0, v, m);
            }
        }
    }
    proof {
        assert(order@ + queue@ =~= order@);
        lemma_pigeonhole(order@, n as int);
    }
    if order.len() == n {
        proof {
            lemma_sorted(order@, edges@, n as int);
            law_cycle_has_no_order(order@, edges@, n as int);
        }
        Ok(order)
    } else {
        proof {
            lemma_missing(order@, n as int);
            let v = choose|v: usize| v < n && !order@.contains(v);
            assert forall|u: usize| u < n && !order@.contains(u) implies #[trigger] waiting(
                edges@,
                order@,
                0,
                0,
                u,
                edges@.len() as int,
            ) > 0 by {
                lemma_waiting_bounds(edges@, order@, 0, 0, u, edges@.len() as int);
                assert(indegree@[u as int] != 0);
            }
            lemma_stuck(edges@, order@, n as int, v);
        }
        Err(Cycle)
    }
}

/// The last node of the queue leaves it.
proof fn lemma_popped(order: Seq<usize>, before: Seq<usize>, queue: Seq<usize>, node: usize, n: int)
    requires
        before.len() > 0,
        queue == before.drop_last(),
        node == before.last(),
        nodes_once(order + before, n),
    ensures
        before == queue.push(node),
        before.contains(node),
        node < n,
        !order.contains(node),
        !queue.contains(node),
        nodes_once(order + queue, n),
{
    let a = order + before;
    let last = a.len() - 1;
    assert(a[last] == node);
    assert(before =~= queue.push(node));
    assert(before[before.len() - 1] == node);
    if order.contains(node) {
        let i = choose|i: int| 0 <= i < order.len() && order[i] == node;
        assert(a[i] == node);
    }
    if queue.contains(node) {
        let i = choose|i: int| 0 <= i < queue.len() && queue[i] == node;
        assert(a[order.len() + i] == node);
    }
    let b = order + queue;
    assert(b =~= a.drop_last());
}

/// Fewer than `n` nodes leave one out.
proof fn lemma_missing(order: Seq<usize>, n: int)
    requires
        0 <= n <= usize::MAX,
        nodes_once(order, n),
        order.len() < n,
    ensures
        exists|v: usize| v < n && !order.contains(v),
{
    if forall|v: usize| v < n ==> order.contains(v) {
        lemma_node_set(n);
        order.unique_seq_to_set();
        assert(order.to_set() =~= node_set(n)) by {
            assert forall|v: usize| order.to_set().contains(v) <==> node_set(n).contains(v) by {
                if order.contains(v) {
                    let i = choose|i: int| 0 <= i < order.len() && order[i] == v;
                    assert(order[i] < n);
                }
            }
        }
    }
}

/// An order of all nodes in which each comes after its predecessors is a dependency order.
proof fn lemma_sorted(order: Seq<usize>, edges: Seq<(usize, usize)>, n: int)
    requires
        order.len() == n,
        nodes_once(order, n),
        settled(edges, order),
    ensures
        dependency_order(order, edges, n),
{
    assert forall|i: int, j: int|
        0 <= i < n && 0 <= j < n && #[trigger] edges.contains((order[i], order[j])) implies i
        < j by {
        let e = choose|e: int| 0 <= e < edges.len() && edges[e] == (order[i], order[j]);
        assert(edges[e].1 == order[j]);
        let p = order.take(j);
        let q = choose|q: int| 0 <= q < p.len() && p[q] == order[i];
        assert(order[q] == order[i]);
    }
}

} // verus!
