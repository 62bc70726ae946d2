//! A directed graph over an arena of nodes.
//!
//! Nodes live in one owned table and are addressed by dense integer
//! ids, so edges are plain (cost, target id) pairs and no node ever
//! points at another. Traversal (breadth-first and depth-first) and a
//! shortest-path search by repeated relaxation are built on top.

use vstd::prelude::*;

verus! {

/// A graph node: its id, its payload, and its outgoing edges as
/// (cost, target id) pairs.
pub struct Node<T> {
    pub id: i32,
    pub data: T,
    pub edges: Vec<(i32, i32)>,
}

impl<T> Node<T> {
    pub fn new(id: i32, data: T) -> (n: Node<T>)
        ensures
            n.id == id,
            n.data == data,
            n.edges@ == Seq::<(i32, i32)>::empty(),
    {
        Node { id, data, edges: Vec::new() }
    }
}

/// One pending step of the shortest-path search: a node and the cost
/// of the path that reached it.
#[derive(Clone, Copy)]
pub struct NodeState {
    id: i32,
    cost: i64,
}

/// A vector of `n` copies of `x`.
fn repeat_val<T: Copy>(x: T, n: usize) -> (v: Vec<T>)
    ensures
        v@.len() == n,
        forall|i: int| 0 <= i < n ==> v@[i] == x,
{
    let mut v: Vec<T> = Vec::new();
    let mut i: usize = 0;
    while i < n
        invariant
            i <= n,
            v@.len() == i,
            forall|j: int| 0 <= j < i ==> v@[j] == x,
        decreases n - i,
    {
        v.push(x);
        i = i + 1;
    }
    v
}

/// How many entries of `s` are still false.
pub open spec fn num_unvisited(s: Seq<bool>) -> int
    decreases s.len(),
{
    if s.len() == 0 {
        0
    } else {
        num_unvisited(s.drop_last()) + (if s.last() {
            0int
        } else {
            1int
        })
    }
}

pub proof fn lemma_num_unvisited_bounds(s: Seq<bool>)
    ensures
        0 <= num_unvisited(s) <= s.len(),
    decreases s.len(),
{
    if s.len() > 0 {
        lemma_num_unvisited_bounds(s.drop_last());
    }
}

/// A sequence of only false entries is entirely unvisited.
proof fn lemma_num_unvisited_full(s: Seq<bool>)
    requires
        forall|i: int| 0 <= i < s.len() ==> !s[i],
    ensures
        num_unvisited(s) == s.len(),
    decreases s.len(),
{
    if s.len() > 0 {
        assert forall|i: int| 0 <= i < s.drop_last().len() implies !s.drop_last()[i] by {
            assert(!s[i]);
        }
        lemma_num_unvisited_full(s.drop_last());
        assert(!s[s.len() - 1]);
    }
}

/// Marking one unvisited entry lowers the count by exactly one.
pub proof fn lemma_num_unvisited_set(s: Seq<bool>, i: int)
    requires
        0 <= i < s.len(),
        !s[i],
    ensures
        num_unvisited(s.update(i, true)) == num_unvisited(s) - 1,
    decreases s.len(),
{
    let t = s.update(i, true);
    if i == s.len() - 1 {
        assert(t.drop_last() =~= s.drop_last());
    } else {
        assert(t.drop_last() =~= s.drop_last().update(i, true));
        lemma_num_unvisited_set(s.drop_last(), i);
    }
}

/// The total distance mass of `s`, measured from the lowest possible
/// value so that it is never negative.
spec fn sum_shift(s: Seq<i64>) -> int
    decreases s.len(),
{
    if s.len() == 0 {
        0
    } else {
        sum_shift(s.drop_last()) + (s.last() - i64::MIN)
    }
}

proof fn lemma_sum_shift_nonneg(s: Seq<i64>)
    ensures
        sum_shift(s) >= 0,
    decreases s.len(),
{
    if s.len() > 0 {
        lemma_sum_shift_nonneg(s.drop_last());
    }
}

/// Lowering one entry lowers the total by the same amount.
proof fn lemma_sum_shift_update(s: Seq<i64>, i: int, v: i64)
    requires
        0 <= i < s.len(),
    ensures
        sum_shift(s.update(i, v)) == sum_shift(s) + (v - s[i]),
    decreases s.len(),
{
    let t = s.update(i, v);
    if i == s.len() - 1 {
        assert(t.drop_last() =~= s.drop_last());
    } else {
        assert(t.drop_last() =~= s.drop_last().update(i, v));
        lemma_sum_shift_update(s.drop_last(), i, v);
    }
}

/// Bound on the magnitude of any stored path cost; sums are clamped
/// here so that a finite distance can always be told from "unreached".
pub const COST_CAP: i64 = 0x4000_0000_0000_0000;

/// Some entry of `h` carries the id `m` with cost `c`.
spec fn heap_has_at(h: Seq<NodeState>, m: i32, c: i64) -> bool {
    exists|p: int| 0 <= p < h.len() && (#[trigger] h[p]).id == m && h[p].cost == c
}

/// Some position of `q` at or after `head` holds `m`.
spec fn pending(q: Seq<i32>, head: int, m: i32) -> bool {
    exists|p: int| head <= p < q.len() && q[p] == m
}

/// An element in the pending region stays there when the sequence
/// grows at its end.
proof fn lemma_pending_push(q: Seq<i32>, head: int, m: i32, y: i32)
    requires
        0 <= head,
        pending(q, head, m),
    ensures
        pending(q.push(y), head, m),
{
    let p = choose|p: int| head <= p < q.len() && q[p] == m;
    assert(q.push(y)[p] == m);
}

/// The targets of `edges[i..]` not yet marked in `visited`, in edge
/// order: exactly the ids a traversal enqueues while scanning a
/// freshly visited node.
pub open spec fn fresh_targets(edges: Seq<(i32, i32)>, i: int, visited: Seq<bool>) -> Seq<i32>
    decreases edges.len() - i,
{
    if i < 0 || i >= edges.len() {
        Seq::empty()
    } else {
        let m = edges[i].1;
        (if 0 <= m < visited.len() && !visited[m as int] {
            seq![m]
        } else {
            Seq::empty()
        }) + fresh_targets(edges, i + 1, visited)
    }
}

/// Whether `edges[i..]` has an entry targeting `b`.
pub open spec fn has_target(edges: Seq<(i32, i32)>, i: int, b: i32) -> bool {
    exists|j: int| i <= j < edges.len() && (#[trigger] edges[j]).1 == b
}

/// The cheapest cost among the edges of `edges[i..]` that target `b`
/// (0 when there is none).
pub open spec fn min_cost_from(edges: Seq<(i32, i32)>, i: int, b: i32) -> int
    decreases edges.len() - i,
{
    if !(0 <= i < edges.len()) {
        0
    } else if edges[i].1 == b {
        if has_target(edges, i + 1, b) {
            let r = min_cost_from(edges, i + 1, b);
            if edges[i].0 <= r {
                edges[i].0 as int
            } else {
                r
            }
        } else {
            edges[i].0 as int
        }
    } else {
        min_cost_from(edges, i + 1, b)
    }
}

/// The minimum is a lower bound on every matching edge.
proof fn lemma_min_le(edges: Seq<(i32, i32)>, i: int, j: int, b: i32)
    requires
        0 <= i <= j < edges.len(),
        edges[j].1 == b,
    ensures
        has_target(edges, i, b),
        min_cost_from(edges, i, b) <= edges[j].0,
    decreases j - i,
{
    if i < j {
        lemma_min_le(edges, i + 1, j, b);
    }
}

/// The minimum is achieved by some matching edge.
proof fn lemma_min_achieved(edges: Seq<(i32, i32)>, i: int, b: i32)
    requires
        0 <= i,
        has_target(edges, i, b),
    ensures
        exists|j: int|
            i <= j < edges.len() && (#[trigger] edges[j]).1 == b && edges[j].0 == min_cost_from(
                edges,
                i,
                b,
            ),
    decreases edges.len() - i,
{
    let j0 = choose|j: int| i <= j < edges.len() && (#[trigger] edges[j]).1 == b;
    if edges[i].1 == b {
        if has_target(edges, i + 1, b) {
            lemma_min_achieved(edges, i + 1, b);
            if edges[i].0 <= min_cost_from(edges, i + 1, b) {
                assert((#[trigger] edges[i]).1 == b && edges[i].0 == min_cost_from(edges, i, b));
            }
        } else {
            assert((#[trigger] edges[i]).1 == b && edges[i].0 == min_cost_from(edges, i, b));
        }
    } else {
        assert(i < j0);
        assert(has_target(edges, i + 1, b));
        lemma_min_achieved(edges, i + 1, b);
    }
}

/// A directed graph; `root` is where traversals start.
pub struct Graph<T> {
    pub root: i32,
    pub nodes: Vec<Node<T>>,
}

impl<T: Clone> Graph<T> {
    /// Node ids are dense (node `i` has id `i`), every edge points at
    /// a node of the table, and ids fit in an `i32`.
    pub open spec fn wf(self) -> bool {
        &&& self.nodes@.len() <= i32::MAX
        &&& forall|i: int| 0 <= i < self.nodes@.len() ==> (#[trigger] self.nodes@[i]).id == i as i32
        &&& forall|i: int, j: int|
            0 <= i < self.nodes@.len() && 0 <= j < self.nodes@[i].edges@.len() ==> 0 <= (
            #[trigger] self.nodes@[i].edges@[j]).1 < self.nodes@.len()
    }

    /// Whether `id` names a node of the table.
    pub open spec fn valid_id(self, id: i32) -> bool {
        0 <= id < self.nodes@.len()
    }

    /// There is an edge from the node in slot `a` to the node with
    /// id `b`.
    pub open spec fn has_edge(self, a: int, b: i32) -> bool {
        exists|j: int|
            0 <= j < self.nodes@[a].edges@.len() && (#[trigger] self.nodes@[a].edges@[j]).1 == b
    }

    /// All edge costs of the graph are nonnegative.
    pub open spec fn costs_nonneg(self) -> bool {
        forall|i: int, j: int|
            0 <= i < self.nodes@.len() && 0 <= j < self.nodes@[i].edges@.len() ==> (
            #[trigger] self.nodes@[i].edges@[j]).0 >= 0
    }

    /// The cost of the cheapest edge from node `a` to id `b`.
    pub open spec fn edge_min(self, a: int, b: i32) -> int {
        min_cost_from(self.nodes@[a].edges@, 0, b)
    }

    /// `p` walks the graph: every element names a node and every
    /// consecutive pair is joined by an edge.
    pub open spec fn is_edge_path(self, p: Seq<i32>) -> bool {
        &&& p.len() >= 1
        &&& forall|i: int| 0 <= i < p.len() ==> self.valid_id(#[trigger] p[i])
        &&& forall|i: int| 0 <= i < p.len() - 1 ==> self.has_edge(#[trigger] p[i] as int, p[i + 1])
    }

    /// The cost of a path, taking the cheapest edge at every step.
    pub open spec fn path_cost(self, p: Seq<i32>) -> int
        decreases p.len(),
    {
        if p.len() <= 1 {
            0
        } else {
            self.edge_min(p[0] as int, p[1]) + self.path_cost(p.drop_first())
        }
    }

    /// With nonnegative edge costs, no path costs less than nothing.
    proof fn lemma_path_cost_nonneg(self, p: Seq<i32>)
        requires
            self.wf(),
            self.costs_nonneg(),
            self.is_edge_path(p),
        ensures
            self.path_cost(p) >= 0,
        decreases p.len(),
    {
        if p.len() > 1 {
            assert(self.has_edge(p[0] as int, p[1]));
            let jw = choose|j: int|
                0 <= j < self.nodes@[p[0] as int].edges@.len() && (#[trigger] self.nodes@[p[0] as int].edges@[j]).1
                    == p[1];
            lemma_min_achieved(self.nodes@[p[0] as int].edges@, 0, p[1]);
            let ja = choose|j: int|
                0 <= j < self.nodes@[p[0] as int].edges@.len() && (#[trigger] self.nodes@[p[0] as int].edges@[j]).1
                    == p[1] && self.nodes@[p[0] as int].edges@[j].0 == self.edge_min(
                    p[0] as int,
                    p[1],
                );
            assert(self.edge_min(p[0] as int, p[1]) >= 0);
            assert(self.is_edge_path(p.drop_first())) by {
                assert forall|i: int| 0 <= i < p.drop_first().len() implies self.valid_id(
                    #[trigger] p.drop_first()[i],
                ) by {
                    assert(p.drop_first()[i] == p[i + 1]);
                }
                assert forall|i: int| 0 <= i < p.drop_first().len() - 1 implies self.has_edge(
                    #[trigger] p.drop_first()[i] as int,
                    p.drop_first()[i + 1],
                ) by {
                    assert(p.drop_first()[i] == p[i + 1] && p.drop_first()[i + 1] == p[i + 2]);
                    assert(self.has_edge(p[i + 1] as int, p[i + 2]));
                }
            }
            self.lemma_path_cost_nonneg(p.drop_first());
        }
    }

    /// A path witnesses reachability of its end from its start.
    proof fn lemma_path_reachable(self, p: Seq<i32>)
        requires
            self.wf(),
            self.is_edge_path(p),
        ensures
            self.reachable_in(p.first(), p.last(), (p.len() - 1) as nat),
        decreases p.len(),
    {
        if p.len() > 1 {
            assert(self.has_edge(p[0] as int, p[1]));
            let jw = choose|j: int|
                0 <= j < self.nodes@[p[0] as int].edges@.len() && (#[trigger] self.nodes@[p[0] as int].edges@[j]).1
                    == p[1];
            assert(self.is_edge_path(p.drop_first())) by {
                assert forall|i: int| 0 <= i < p.drop_first().len() implies self.valid_id(
                    #[trigger] p.drop_first()[i],
                ) by {
                    assert(p.drop_first()[i] == p[i + 1]);
                }
                assert forall|i: int| 0 <= i < p.drop_first().len() - 1 implies self.has_edge(
                    #[trigger] p.drop_first()[i] as int,
                    p.drop_first()[i + 1],
                ) by {
                    assert(p.drop_first()[i] == p[i + 1] && p.drop_first()[i + 1] == p[i + 2]);
                    assert(self.has_edge(p[i + 1] as int, p[i + 2]));
                }
            }
            self.lemma_path_reachable(p.drop_first());
            assert(p.drop_first().first() == p[1] && p.drop_first().last() == p.last());
            if p.first() != p.last() {
                assert(0 <= jw < self.nodes@[p.first() as int].edges@.len() && self.reachable_in(
                    self.nodes@[p.first() as int].edges@[jw].1,
                    p.last(),
                    (p.len() - 2) as nat,
                ));
            }
        }
    }

    /// Dropping a path's first node leaves a path.
    proof fn lemma_path_tail(self, p: Seq<i32>)
        requires
            self.is_edge_path(p),
            p.len() >= 2,
        ensures
            self.is_edge_path(p.drop_first()),
            p.drop_first().first() == p[1],
            p.drop_first().last() == p.last(),
    {
        assert forall|i: int| 0 <= i < p.drop_first().len() implies self.valid_id(
            #[trigger] p.drop_first()[i],
        ) by {
            assert(p.drop_first()[i] == p[i + 1]);
        }
        assert forall|i: int| 0 <= i < p.drop_first().len() - 1 implies self.has_edge(
            #[trigger] p.drop_first()[i] as int,
            p.drop_first()[i + 1],
        ) by {
            assert(p.drop_first()[i] == p[i + 1] && p.drop_first()[i + 1] == p[i + 2]);
            assert(self.has_edge(p[i + 1] as int, p[i + 2]));
        }
    }

    /// No path out of the settled region beats the cheapest pending
    /// entry: its first edge out of the region is already relaxed, and
    /// the node it reaches is pending at its own distance.
    proof fn lemma_path_bound(
        self,
        p: Seq<i32>,
        visited: Seq<bool>,
        dist: Seq<i64>,
        heap: Seq<NodeState>,
        minc: i64,
    )
        requires
            self.wf(),
            self.costs_nonneg(),
            visited.len() == self.nodes@.len(),
            dist.len() == self.nodes@.len(),
            self.is_edge_path(p),
            visited[p.first() as int],
            !visited[p.last() as int],
            forall|x: int|
                0 <= x < visited.len() && #[trigger] visited[x] ==> -COST_CAP <= dist[x]
                    <= COST_CAP,
            forall|v: int, j: int|
                0 <= v < visited.len() && visited[v] && 0 <= j < self.nodes@[v].edges@.len()
                    ==> dist[(#[trigger] self.nodes@[v].edges@[j]).1 as int] <= dist[v]
                    + self.nodes@[v].edges@[j].0,
            forall|x: int|
                0 <= x < visited.len() && !visited[x] && (#[trigger] dist[x]) < i64::MAX
                    ==> heap_has_at(heap, x as i32, dist[x]),
            forall|i: int| 0 <= i < heap.len() ==> minc <= (#[trigger] heap[i]).cost,
        ensures
            minc <= dist[p.first() as int] + self.path_cost(p),
        decreases p.len(),
    {
        let a = p.first();
        let b = p[1];
        assert(self.has_edge(a as int, b));
        let jw = choose|j: int|
            0 <= j < self.nodes@[a as int].edges@.len() && (#[trigger] self.nodes@[a as int].edges@[j]).1
                == b;
        lemma_min_le(self.nodes@[a as int].edges@, 0, jw, b);
        lemma_min_achieved(self.nodes@[a as int].edges@, 0, b);
        let ja = choose|j: int|
            0 <= j < self.nodes@[a as int].edges@.len() && (#[trigger] self.nodes@[a as int].edges@[j]).1
                == b && self.nodes@[a as int].edges@[j].0 == self.edge_min(a as int, b);
        assert(dist[b as int] <= dist[a as int] + self.edge_min(a as int, b)) by {
            assert(dist[(self.nodes@[a as int].edges@[ja]).1 as int] <= dist[a as int]
                + self.nodes@[a as int].edges@[ja].0);
        }
        self.lemma_path_tail(p);
        let q = p.drop_first();
        if !visited[b as int] {
            assert(dist[b as int] < i64::MAX);
            assert(heap_has_at(heap, b, dist[b as int]));
            let pp = choose|pp: int|
                0 <= pp < heap.len() && (#[trigger] heap[pp]).id == b && heap[pp].cost
                    == dist[b as int];
            assert(minc <= dist[b as int]);
            self.lemma_path_cost_nonneg(q);
        } else {
            self.lemma_path_bound(q, visited, dist, heap, minc);
        }
    }

    /// There is a path of at most `k` edges from the node with id `a`
    /// to the node with id `b`.
    pub open spec fn reachable_in(self, a: i32, b: i32, k: nat) -> bool
        decreases k,
    {
        if a == b {
            true
        } else if k == 0 {
            false
        } else {
            exists|j: int|
                0 <= j < self.nodes@[a as int].edges@.len() && self.reachable_in(
                    (#[trigger] self.nodes@[a as int].edges@[j]).1,
                    b,
                    (k - 1) as nat,
                )
        }
    }

    /// There is a path of edges from the node with id `a` to the node
    /// with id `b`.
    pub open spec fn reachable(self, a: i32, b: i32) -> bool {
        exists|k: nat| self.reachable_in(a, b, k)
    }

    /// A path can be extended by one more edge at its end.
    proof fn lemma_reachable_extend(self, a: i32, b: i32, j: int, k: nat)
        requires
            self.wf(),
            self.valid_id(a),
            self.valid_id(b),
            self.reachable_in(a, b, k),
            0 <= j < self.nodes@[b as int].edges@.len(),
        ensures
            self.reachable_in(a, self.nodes@[b as int].edges@[j].1, (k + 1) as nat),
        decreases k,
    {
        let m = self.nodes@[b as int].edges@[j].1;
        if a == b {
            if a != m {
                assert(self.reachable_in(m, m, k));
                assert(0 <= j < self.nodes@[a as int].edges@.len() && self.reachable_in(
                    self.nodes@[a as int].edges@[j].1,
                    m,
                    k,
                ));
            }
        } else {
            let j0 = choose|j0: int|
                0 <= j0 < self.nodes@[a as int].edges@.len() && self.reachable_in(
                    (#[trigger] self.nodes@[a as int].edges@[j0]).1,
                    b,
                    (k - 1) as nat,
                );
            let x = self.nodes@[a as int].edges@[j0].1;
            assert(self.valid_id(x));
            self.lemma_reachable_extend(x, b, j, (k - 1) as nat);
            assert(0 <= j0 < self.nodes@[a as int].edges@.len() && self.reachable_in(
                self.nodes@[a as int].edges@[j0].1,
                m,
                k,
            ));
        }
    }

    /// A set of nodes that contains `a` and is closed under following
    /// edges contains everything reachable from `a`.
    proof fn lemma_closed_reaches(self, s: Seq<bool>, a: i32, b: i32, k: nat)
        requires
            self.wf(),
            s.len() == self.nodes@.len(),
            forall|x: int, j: int|
                0 <= x < s.len() && s[x] && 0 <= j < self.nodes@[x].edges@.len() ==> s[(
                #[trigger] self.nodes@[x].edges@[j]).1 as int],
            self.valid_id(a),
            s[a as int],
            self.reachable_in(a, b, k),
        ensures
            self.valid_id(b),
            s[b as int],
        decreases k,
    {
        if a != b {
            let j0 = choose|j0: int|
                0 <= j0 < self.nodes@[a as int].edges@.len() && self.reachable_in(
                    (#[trigger] self.nodes@[a as int].edges@[j0]).1,
                    b,
                    (k - 1) as nat,
                );
            let x = self.nodes@[a as int].edges@[j0].1;
            assert(s[x as int]);
            self.lemma_closed_reaches(s, x, b, (k - 1) as nat);
        }
    }

    /// The ids a breadth-first traversal still emits from an
    /// intermediate state: `queue[head..]` waits to be taken and
    /// `visited` marks the nodes already emitted. An id is emitted
    /// when it leaves the queue unvisited; its unvisited neighbors
    /// then join the queue in edge order.
    pub open spec fn bfs_from(self, queue: Seq<i32>, head: int, visited: Seq<bool>) -> Seq<i32>
        decreases num_unvisited(visited), queue.len() - head,
    {
        if head < 0 || head >= queue.len() {
            Seq::empty()
        } else {
            let id = queue[head];
            if !(0 <= id < visited.len()) {
                Seq::empty()
            } else if visited[id as int] {
                self.bfs_from(queue, head + 1, visited)
            } else {
                let v2 = visited.update(id as int, true);
                proof {
                    lemma_num_unvisited_bounds(v2);
                    lemma_num_unvisited_set(visited, id as int);
                }
                seq![id] + self.bfs_from(
                    queue + fresh_targets(self.nodes@[id as int].edges@, 0, v2),
                    head + 1,
                    v2,
                )
            }
        }
    }

    /// The breadth-first visit order of this graph: what `bfs_ids`
    /// returns.
    pub open spec fn bfs_seq(self) -> Seq<i32> {
        if self.valid_id(self.root) {
            self.bfs_from(seq![self.root], 0, Seq::new(self.nodes@.len(), |i: int| false))
        } else {
            Seq::empty()
        }
    }

    /// The ids a depth-first traversal still emits from an
    /// intermediate state: the top of `stack` is taken next, and the
    /// unvisited neighbors of an emitted node are stacked in edge
    /// order, so the last edge is explored first.
    pub open spec fn dfs_from(self, stack: Seq<i32>, visited: Seq<bool>) -> Seq<i32>
        decreases num_unvisited(visited), stack.len(),
    {
        if stack.len() == 0 {
            Seq::empty()
        } else {
            let id = stack.last();
            if !(0 <= id < visited.len()) {
                Seq::empty()
            } else if visited[id as int] {
                self.dfs_from(stack.drop_last(), visited)
            } else {
                let v2 = visited.update(id as int, true);
                proof {
                    lemma_num_unvisited_bounds(v2);
                    lemma_num_unvisited_set(visited, id as int);
                }
                seq![id] + self.dfs_from(
                    stack.drop_last() + fresh_targets(self.nodes@[id as int].edges@, 0, v2),
                    v2,
                )
            }
        }
    }

    /// The depth-first visit order of this graph: what `dfs_ids`
    /// returns.
    pub open spec fn dfs_seq(self) -> Seq<i32> {
        if self.valid_id(self.root) {
            self.dfs_from(seq![self.root], Seq::new(self.nodes@.len(), |i: int| false))
        } else {
            Seq::empty()
        }
    }

    /// Create a graph whose root node 0 carries `data`.
    pub fn new(data: T) -> (g: Graph<T>)
        ensures
            g.wf(),
            g.root == 0,
            g.nodes@.len() == 1,
            g.nodes@[0].data == data,
            g.nodes@[0].edges@ == Seq::<(i32, i32)>::empty(),
    {
        let mut nodes: Vec<Node<T>> = Vec::new();
        nodes.push(Node::new(0, data));
        Graph { root: 0, nodes }
    }

    /// Add a node carrying `data` and return its id.
    pub fn add_node(&mut self, data: T) -> (id: i32)
        requires
            old(self).wf(),
            old(self).nodes@.len() < i32::MAX,
        ensures
            final(self).wf(),
            final(self).root == old(self).root,
            id == old(self).nodes@.len(),
            final(self).nodes@.len() == old(self).nodes@.len() + 1,
            final(self).nodes@[id as int].data == data,
            final(self).nodes@[id as int].edges@ == Seq::<(i32, i32)>::empty(),
            forall|i: int|
                0 <= i < old(self).nodes@.len() ==> final(self).nodes@[i] == old(self).nodes@[i],
    {
        let node_id = self.nodes.len() as i32;
        self.nodes.push(Node::new(node_id, data));
        node_id
    }

    /// Add an edge of the given cost from `from_id` to `to_id`; ids
    /// that name no node leave the graph unchanged.
    pub fn add_edge(&mut self, from_id: i32, to_id: i32, cost: i32)
        requires
            old(self).wf(),
        ensures
            final(self).wf(),
            final(self).root == old(self).root,
            final(self).nodes@.len() == old(self).nodes@.len(),
            old(self).valid_id(from_id) && old(self).valid_id(to_id) ==> {
                &&& final(self).nodes@[from_id as int].edges@ == old(
                    self,
                ).nodes@[from_id as int].edges@.push((cost, to_id))
                &&& forall|i: int|
                    0 <= i < old(self).nodes@.len() && i != from_id ==> final(self).nodes@[i]
                        == old(self).nodes@[i]
            },
            !(old(self).valid_id(from_id) && old(self).valid_id(to_id)) ==> *final(self) == *old(
                self,
            ),
    {
        let n = self.nodes.len();
        if from_id >= 0 && (from_id as usize) < n && to_id >= 0 && (to_id as usize) < n {
            let idx = from_id as usize;
            self.nodes[idx].edges.push((cost, to_id));
        }
    }

    /// Choose where traversals start. Any id is accepted; traversal
    /// from an id that names no node visits nothing.
    pub fn set_root(&mut self, id: i32)
        ensures
            final(self).root == id,
            final(self).nodes == old(self).nodes,
    {
        self.root = id;
    }

    /// The ids reachable from the root in breadth-first order: each
    /// node at most once, the root (if it names a node) first.
    pub fn bfs_ids(&self) -> (r: Vec<i32>)
        requires
            self.wf(),
        ensures
            r@.no_duplicates(),
            forall|i: int| 0 <= i < r@.len() ==> self.valid_id(#[trigger] r@[i]),
            forall|i: int| 0 <= i < r@.len() ==> self.reachable(self.root, #[trigger] r@[i]),
            r@.len() <= self.nodes@.len(),
            self.valid_id(self.root) ==> r@.len() >= 1 && r@[0] == self.root,
            self.valid_id(self.root) ==> forall|y: i32|
                self.valid_id(y) && self.reachable(self.root, y) ==> r@.contains(y),
            !self.valid_id(self.root) ==> r@.len() == 0,
            r@ == self.bfs_seq(),
    {
        let n = self.nodes.len();
        let mut visited: Vec<bool> = repeat_val(false, n);
        let mut queue: Vec<i32> = Vec::new();
        let mut head: usize = 0;
        let mut out: Vec<i32> = Vec::new();
        if !(self.root >= 0 && (self.root as usize) < n) {
            return out;
        }
        queue.push(self.root);
        proof {
            assert(self.reachable_in(self.root, self.root, 0));
            assert(self.reachable(self.root, self.root));
            assert(visited@ =~= Seq::new(n as nat, |i: int| false));
            assert(queue@ =~= seq![self.root]);
            assert(out@ + self.bfs_from(queue@, 0, visited@) =~= self.bfs_seq());
        }
        while head < queue.len()
            invariant
                self.wf(),
                n == self.nodes@.len(),
                visited@.len() == n,
                head <= queue@.len(),
                forall|i: int|
                    0 <= i < queue@.len() ==> 0 <= (#[trigger] queue@[i]) && queue@[i] < n as i32,
                forall|i: int|
                    0 <= i < out@.len() ==> 0 <= (#[trigger] out@[i]) && out@[i] < n as i32,
                out@.no_duplicates(),
                forall|i: int| 0 <= i < out@.len() ==> visited@[(#[trigger] out@[i]) as int],
                forall|x: int| 0 <= x < n && (#[trigger] visited@[x]) ==> out@.contains(x as i32),
                out@.len() == 0 ==> (head == 0 && queue@.len() == 1 && queue@[0] == self.root),
                out@.len() > 0 ==> out@[0] == self.root,
                out@.len() <= n,
                forall|i: int|
                    0 <= i < queue@.len() ==> self.reachable(self.root, #[trigger] queue@[i]),
                forall|x: int|
                    0 <= x < n && (#[trigger] visited@[x]) ==> self.reachable(self.root, x as i32),
                forall|x: int, j: int|
                    0 <= x < n && visited@[x] && 0 <= j < self.nodes@[x].edges@.len()
                        ==> (visited@[(#[trigger] self.nodes@[x].edges@[j]).1 as int] || pending(
                        queue@,
                        head as int,
                        self.nodes@[x].edges@[j].1,
                    )),
                out@ + self.bfs_from(queue@, head as int, visited@) == self.bfs_seq(),
            decreases num_unvisited(visited@), queue@.len() - head,
        {
            let ghost q0 = queue@;
            let ghost head0 = head as int;
            let id = queue[head];
            head = head + 1;
            let idu = id as usize;
            if !visited[idu] {
                let ghost visited0 = visited@;
                let ghost out0 = out@;
                proof {
                    lemma_num_unvisited_set(visited0, idu as int);
                    assert(!out0.contains(id)) by {
                        if out0.contains(id) {
                            let i = out0.index_of(id);
                            assert(visited0[out0[i] as int]);
                        }
                    }
                }
                visited[idu] = true;
                out.push(id);
                proof {
                    assert(out@ == out0.push(id));
                    assert(out@.drop_last() =~= out0);
                    assert(out@.no_duplicates()) by {
                        assert forall|i: int, j: int|
                            0 <= i < out@.len() && 0 <= j < out@.len() && i != j implies out@[i]
                            != out@[j] by {
                            if i < out@.len() - 1 && j < out@.len() - 1 {
                                assert(out@[i] == out0[i]);
                                assert(out@[j] == out0[j]);
                            } else if i == out@.len() - 1 && j < out@.len() - 1 {
                                assert(out@[j] == out0[j]);
                                assert(!out0.contains(id));
                            } else if j == out@.len() - 1 && i < out@.len() - 1 {
                                assert(out@[i] == out0[i]);
                                assert(!out0.contains(id));
                            }
                        }
                    }
                    assert forall|x: int|
                        0 <= x < n && (#[trigger] visited@[x]) implies out@.contains(x as i32) by {
                        if x == idu as int {
                            assert(out@[out@.len() - 1] == id);
                        } else {
                            assert(visited0[x]);
                            assert(out0.contains(x as i32));
                            let i = out0.index_of(x as i32);
                            assert(out@[i] == out0[i]);
                            assert(out@[i] == x as i32);
                        }
                    }
                    // Every visited node occupies a distinct slot of
                    // `out`, so `out` can never outgrow the table.
                    lemma_num_unvisited_bounds(visited@);
                    assert(out@.len() <= n) by {
                        out@.unique_seq_to_set();
                        lemma_int_range_card(n as int);
                        assert(out@.to_set().subset_of(int_id_range(n as int)));
                        vstd::set_lib::lemma_len_subset(out@.to_set(), int_id_range(n as int));
                    }
                    // The node just visited was pending, hence reachable.
                    assert(q0[head0] == id);
                    assert(self.reachable(self.root, id));
                    // Neighbors of the previously visited nodes are
                    // still visited or pending past the new head.
                    assert forall|x: int, j: int|
                        0 <= x < n && visited@[x] && x != idu as int && 0 <= j
                            < self.nodes@[x].edges@.len() implies (visited@[(
                    #[trigger] self.nodes@[x].edges@[j]).1 as int] || pending(
                        queue@,
                        head as int,
                        self.nodes@[x].edges@[j].1,
                    )) by {
                        let m = self.nodes@[x].edges@[j].1;
                        assert(visited0[x]);
                        if !visited0[m as int] {
                            assert(pending(q0, head0, m));
                            let p = choose|p: int| head0 <= p < q0.len() && q0[p] == m;
                            if p == head0 {
                                assert(m == id);
                            } else {
                                assert(queue@[p] == m);
                            }
                        }
                    }
                    // Taking `id` unfolds the traversal spec by one
                    // visit step.
                    assert(self.bfs_from(q0, head0, visited0) == seq![id] + self.bfs_from(
                        q0 + fresh_targets(self.nodes@[idu as int].edges@, 0, visited@),
                        head0 + 1,
                        visited@,
                    ));
                }
                let node = &self.nodes[idu];
                let mut j: usize = 0;
                while j < node.edges.len()
                    invariant
                        self.wf(),
                        n == self.nodes@.len(),
                        visited@.len() == n,
                        head <= queue@.len(),
                        0 <= idu < n,
                        id == idu as i32,
                        0 <= self.root && self.root < n as i32,
                        visited@[idu as int],
                        self.reachable(self.root, id),
                        node == &self.nodes@[idu as int],
                        q0 + fresh_targets(self.nodes@[idu as int].edges@, 0, visited@) == queue@
                            + fresh_targets(self.nodes@[idu as int].edges@, j as int, visited@),
                        forall|i: int|
                            0 <= i < queue@.len() ==> 0 <= (#[trigger] queue@[i]) && queue@[i]
                                < n as i32,
                        forall|i: int|
                            0 <= i < queue@.len() ==> self.reachable(
                                self.root,
                                #[trigger] queue@[i],
                            ),
                        forall|x: int, j2: int|
                            0 <= x < n && visited@[x] && x != idu as int && 0 <= j2
                                < self.nodes@[x].edges@.len() ==> (visited@[(
                            #[trigger] self.nodes@[x].edges@[j2]).1 as int] || pending(
                                queue@,
                                head as int,
                                self.nodes@[x].edges@[j2].1,
                            )),
                        forall|j2: int|
                            0 <= j2 < j ==> (visited@[(
                            #[trigger] self.nodes@[idu as int].edges@[j2]).1 as int] || pending(
                                queue@,
                                head as int,
                                self.nodes@[idu as int].edges@[j2].1,
                            )),
                    decreases node.edges@.len() - j,
                {
                    let ghost qb = queue@;
                    let (_cost, to) = node.edges[j];
                    if !visited[to as usize] {
                        queue.push(to);
                        proof {
                            let k = choose|k: nat| self.reachable_in(self.root, id, k);
                            self.lemma_reachable_extend(self.root, id, j as int, k);
                            assert(self.reachable_in(self.root, to, (k + 1) as nat));
                            assert(self.reachable(self.root, to));
                            assert(queue@[qb.len() as int] == to);
                        }
                    }
                    proof {
                        let edges = self.nodes@[idu as int].edges@;
                        assert(fresh_targets(edges, j as int, visited@) == (if 0 <= to
                            < visited@.len() && !visited@[to as int] {
                            seq![to]
                        } else {
                            Seq::empty()
                        }) + fresh_targets(edges, j + 1, visited@));
                        if !visited@[to as int] {
                            assert(queue@ =~= qb.push(to));
                            assert(qb + (seq![to] + fresh_targets(edges, j + 1, visited@)) =~= qb.push(
                                to,
                            ) + fresh_targets(edges, j + 1, visited@));
                        } else {
                            assert(Seq::<i32>::empty() + fresh_targets(edges, j + 1, visited@)
                                =~= fresh_targets(edges, j + 1, visited@));
                        }
                        assert(q0 + fresh_targets(edges, 0, visited@) == queue@ + fresh_targets(
                            edges,
                            j + 1,
                            visited@,
                        ));
                    }
                    proof {
                        assert forall|x: int, j2: int|
                            0 <= x < n && visited@[x] && x != idu as int && 0 <= j2
                                < self.nodes@[x].edges@.len() implies (visited@[(
                        #[trigger] self.nodes@[x].edges@[j2]).1 as int] || pending(
                            queue@,
                            head as int,
                            self.nodes@[x].edges@[j2].1,
                        )) by {
                            let m = self.nodes@[x].edges@[j2].1;
                            if !visited@[m as int] && pending(qb, head as int, m) {
                                lemma_pending_push(qb, head as int, m, to);
                            }
                        }
                        assert forall|j2: int| 0 <= j2 < j + 1 implies (visited@[(
                        #[trigger] self.nodes@[idu as int].edges@[j2]).1 as int] || pending(
                            queue@,
                            head as int,
                            self.nodes@[idu as int].edges@[j2].1,
                        )) by {
                            let m = self.nodes@[idu as int].edges@[j2].1;
                            if j2 == j {
                                if !visited@[m as int] {
                                    assert(m == to);
                                    assert(queue@[qb.len() as int] == to);
                                }
                            } else {
                                if !visited@[m as int] && pending(qb, head as int, m) {
                                    lemma_pending_push(qb, head as int, m, to);
                                }
                            }
                        }
                    }
                    j = j + 1;
                }
                proof {
                    // The queue now holds exactly the spec's extension,
                    // so the traversal equation advances by one step.
                    let edges = self.nodes@[idu as int].edges@;
                    assert(fresh_targets(edges, edges.len() as int, visited@) =~= Seq::<
                        i32,
                    >::empty());
                    assert(queue@ + fresh_targets(edges, edges.len() as int, visited@) =~= queue@);
                    assert(queue@ == q0 + fresh_targets(edges, 0, visited@));
                    assert(self.bfs_from(q0, head0, visited0) == seq![id] + self.bfs_from(
                        queue@,
                        head as int,
                        visited@,
                    ));
                    assert(out@ + self.bfs_from(queue@, head as int, visited@) =~= (out0
                        + self.bfs_from(q0, head0, visited0)));
                }
            } else {
                proof {
                    assert(self.bfs_from(q0, head0, visited@) == self.bfs_from(
                        q0,
                        head0 + 1,
                        visited@,
                    ));
                    // Skipping an already-visited entry keeps every
                    // neighbor obligation: the entry that left the
                    // pending region is itself visited.
                    assert forall|x: int, j: int|
                        0 <= x < n && visited@[x] && 0 <= j < self.nodes@[x].edges@.len() implies (
                    visited@[(#[trigger] self.nodes@[x].edges@[j]).1 as int] || pending(
                        queue@,
                        head as int,
                        self.nodes@[x].edges@[j].1,
                    )) by {
                        let m = self.nodes@[x].edges@[j].1;
                        if !visited@[m as int] {
                            assert(pending(q0, head0, m));
                            let p = choose|p: int| head0 <= p < q0.len() && q0[p] == m;
                            if p == head0 {
                                assert(m == id);
                                assert(visited@[idu as int]);
                            } else {
                                assert(queue@[p] == m);
                            }
                        }
                    }
                }
            }
        }
        proof {
            assert(self.bfs_from(queue@, head as int, visited@) =~= Seq::<i32>::empty());
            assert(out@ + Seq::<i32>::empty() =~= out@);
            // The queue is exhausted, so the visited set is closed
            // under edges; everything reachable from the root is in it.
            assert forall|y: i32| self.valid_id(y) && self.reachable(self.root, y) implies out@.contains(
                y,
            ) by {
                assert forall|x: int, j: int|
                    0 <= x < n && visited@[x] && 0 <= j < self.nodes@[x].edges@.len() implies visited@[(
                #[trigger] self.nodes@[x].edges@[j]).1 as int] by {
                    let m = self.nodes@[x].edges@[j].1;
                    if !visited@[m as int] {
                        assert(pending(queue@, head as int, m));
                        let p = choose|p: int| head as int <= p < queue@.len() && queue@[p] == m;
                        assert(false);
                    }
                }
                assert(out@.len() > 0 && out@[0] == self.root);
                assert(visited@[self.root as int]);
                let k = choose|k: nat| self.reachable_in(self.root, y, k);
                self.lemma_closed_reaches(visited@, self.root, y, k);
                assert(visited@[y as int]);
            }
        }
        out
    }

    /// The ids reachable from the root in depth-first order: each node
    /// at most once, the root (if it names a node) first.
    pub fn dfs_ids(&self) -> (r: Vec<i32>)
        requires
            self.wf(),
        ensures
            r@.no_duplicates(),
            forall|i: int| 0 <= i < r@.len() ==> self.valid_id(#[trigger] r@[i]),
            forall|i: int| 0 <= i < r@.len() ==> self.reachable(self.root, #[trigger] r@[i]),
            r@.len() <= self.nodes@.len(),
            self.valid_id(self.root) ==> r@.len() >= 1 && r@[0] == self.root,
            self.valid_id(self.root) ==> forall|y: i32|
                self.valid_id(y) && self.reachable(self.root, y) ==> r@.contains(y),
            !self.valid_id(self.root) ==> r@.len() == 0,
            r@ == self.dfs_seq(),
    {
        let n = self.nodes.len();
        let mut visited: Vec<bool> = repeat_val(false, n);
        let mut stack: Vec<i32> = Vec::new();
        let mut out: Vec<i32> = Vec::new();
        if !(self.root >= 0 && (self.root as usize) < n) {
            return out;
        }
        stack.push(self.root);
        proof {
            assert(self.reachable_in(self.root, self.root, 0));
            assert(self.reachable(self.root, self.root));
            assert(visited@ =~= Seq::new(n as nat, |i: int| false));
            assert(stack@ =~= seq![self.root]);
            assert(out@ + self.dfs_from(stack@, visited@) =~= self.dfs_seq());
        }
        while stack.len() > 0
            invariant
                self.wf(),
                n == self.nodes@.len(),
                visited@.len() == n,
                forall|i: int|
                    0 <= i < stack@.len() ==> 0 <= (#[trigger] stack@[i]) && stack@[i] < n as i32,
                forall|i: int|
                    0 <= i < out@.len() ==> 0 <= (#[trigger] out@[i]) && out@[i] < n as i32,
                out@.no_duplicates(),
                forall|i: int| 0 <= i < out@.len() ==> visited@[(#[trigger] out@[i]) as int],
                forall|x: int| 0 <= x < n && (#[trigger] visited@[x]) ==> out@.contains(x as i32),
                out@.len() == 0 ==> (stack@.len() == 1 && stack@[0] == self.root),
                out@.len() > 0 ==> out@[0] == self.root,
                out@.len() <= n,
                forall|i: int|
                    0 <= i < stack@.len() ==> self.reachable(self.root, #[trigger] stack@[i]),
                forall|x: int|
                    0 <= x < n && (#[trigger] visited@[x]) ==> self.reachable(self.root, x as i32),
                forall|x: int, j: int|
                    0 <= x < n && visited@[x] && 0 <= j < self.nodes@[x].edges@.len()
                        ==> (visited@[(#[trigger] self.nodes@[x].edges@[j]).1 as int] || pending(
                        stack@,
                        0,
                        self.nodes@[x].edges@[j].1,
                    )),
                out@ + self.dfs_from(stack@, visited@) == self.dfs_seq(),
            decreases num_unvisited(visited@), stack@.len(),
        {
            let ghost s0 = stack@;
            let id = stack.pop().unwrap();
            proof {
                assert(id == s0.last());
                assert(stack@ =~= s0.drop_last());
            }
            let idu = id as usize;
            if !visited[idu] {
                let ghost visited0 = visited@;
                let ghost out0 = out@;
                proof {
                    lemma_num_unvisited_set(visited0, idu as int);
                    assert(!out0.contains(id)) by {
                        if out0.contains(id) {
                            let i = out0.index_of(id);
                            assert(visited0[out0[i] as int]);
                        }
                    }
                }
                visited[idu] = true;
                out.push(id);
                proof {
                    assert(out@ == out0.push(id));
                    assert(out@.drop_last() =~= out0);
                    assert(out@.no_duplicates()) by {
                        assert forall|i: int, j: int|
                            0 <= i < out@.len() && 0 <= j < out@.len() && i != j implies out@[i]
                            != out@[j] by {
                            if i < out@.len() - 1 && j < out@.len() - 1 {
                                assert(out@[i] == out0[i]);
                                assert(out@[j] == out0[j]);
                            } else if i == out@.len() - 1 && j < out@.len() - 1 {
                                assert(out@[j] == out0[j]);
                                assert(!out0.contains(id));
                            } else if j == out@.len() - 1 && i < out@.len() - 1 {
                                assert(out@[i] == out0[i]);
                                assert(!out0.contains(id));
                            }
                        }
                    }
                    assert forall|x: int|
                        0 <= x < n && (#[trigger] visited@[x]) implies out@.contains(x as i32) by {
                        if x == idu as int {
                            assert(out@[out@.len() - 1] == id);
                        } else {
                            assert(visited0[x]);
                            assert(out0.contains(x as i32));
                            let i = out0.index_of(x as i32);
                            assert(out@[i] == out0[i]);
                            assert(out@[i] == x as i32);
                        }
                    }
                    lemma_num_unvisited_bounds(visited@);
                    assert(out@.len() <= n) by {
                        out@.unique_seq_to_set();
                        lemma_int_range_card(n as int);
                        assert(out@.to_set().subset_of(int_id_range(n as int)));
                        vstd::set_lib::lemma_len_subset(out@.to_set(), int_id_range(n as int));
                    }
                    // The node just visited was pending, hence reachable.
                    assert(self.reachable(self.root, id));
                    // Neighbors of the previously visited nodes are
                    // still visited or pending in the shrunken stack.
                    assert forall|x: int, j: int|
                        0 <= x < n && visited@[x] && x != idu as int && 0 <= j
                            < self.nodes@[x].edges@.len() implies (visited@[(
                    #[trigger] self.nodes@[x].edges@[j]).1 as int] || pending(
                        stack@,
                        0,
                        self.nodes@[x].edges@[j].1,
                    )) by {
                        let m = self.nodes@[x].edges@[j].1;
                        assert(visited0[x]);
                        if !visited0[m as int] {
                            assert(pending(s0, 0, m));
                            let p = choose|p: int| 0 <= p < s0.len() && s0[p] == m;
                            if p == s0.len() - 1 {
                                assert(m == id);
                            } else {
                                assert(stack@[p] == m);
                            }
                        }
                    }
                    // Taking `id` unfolds the traversal spec by one
                    // visit step.
                    assert(self.dfs_from(s0, visited0) == seq![id] + self.dfs_from(
                        s0.drop_last() + fresh_targets(self.nodes@[idu as int].edges@, 0, visited@),
                        visited@,
                    ));
                }
                let node = &self.nodes[idu];
                let mut j: usize = 0;
                while j < node.edges.len()
                    invariant
                        self.wf(),
                        n == self.nodes@.len(),
                        visited@.len() == n,
                        0 <= idu < n,
                        id == idu as i32,
                        0 <= self.root && self.root < n as i32,
                        visited@[idu as int],
                        self.reachable(self.root, id),
                        node == &self.nodes@[idu as int],
                        s0.drop_last() + fresh_targets(self.nodes@[idu as int].edges@, 0, visited@)
                            == stack@ + fresh_targets(
                            self.nodes@[idu as int].edges@,
                            j as int,
                            visited@,
                        ),
                        forall|i: int|
                            0 <= i < stack@.len() ==> 0 <= (#[trigger] stack@[i]) && stack@[i]
                                < n as i32,
                        forall|i: int|
                            0 <= i < stack@.len() ==> self.reachable(
                                self.root,
                                #[trigger] stack@[i],
                            ),
                        forall|x: int, j2: int|
                            0 <= x < n && visited@[x] && x != idu as int && 0 <= j2
                                < self.nodes@[x].edges@.len() ==> (visited@[(
                            #[trigger] self.nodes@[x].edges@[j2]).1 as int] || pending(
                                stack@,
                                0,
                                self.nodes@[x].edges@[j2].1,
                            )),
                        forall|j2: int|
                            0 <= j2 < j ==> (visited@[(
                            #[trigger] self.nodes@[idu as int].edges@[j2]).1 as int] || pending(
                                stack@,
                                0,
                                self.nodes@[idu as int].edges@[j2].1,
                            )),
                    decreases node.edges@.len() - j,
                {
                    let ghost sb = stack@;
                    let (_cost, to) = node.edges[j];
                    if !visited[to as usize] {
                        stack.push(to);
                        proof {
                            let k = choose|k: nat| self.reachable_in(self.root, id, k);
                            self.lemma_reachable_extend(self.root, id, j as int, k);
                            assert(self.reachable_in(self.root, to, (k + 1) as nat));
                            assert(self.reachable(self.root, to));
                            assert(stack@[sb.len() as int] == to);
                        }
                    }
                    proof {
                        let edges = self.nodes@[idu as int].edges@;
                        assert(fresh_targets(edges, j as int, visited@) == (if 0 <= to
                            < visited@.len() && !visited@[to as int] {
                            seq![to]
                        } else {
                            Seq::empty()
                        }) + fresh_targets(edges, j + 1, visited@));
                        if !visited@[to as int] {
                            assert(stack@ =~= sb.push(to));
                            assert(sb + (seq![to] + fresh_targets(edges, j + 1, visited@)) =~= sb.push(
                                to,
                            ) + fresh_targets(edges, j + 1, visited@));
                        } else {
                            assert(Seq::<i32>::empty() + fresh_targets(edges, j + 1, visited@)
                                =~= fresh_targets(edges, j + 1, visited@));
                        }
                        assert(s0.drop_last() + fresh_targets(edges, 0, visited@) == stack@
                            + fresh_targets(edges, j + 1, visited@));
                    }
                    proof {
                        assert forall|x: int, j2: int|
                            0 <= x < n && visited@[x] && x != idu as int && 0 <= j2
                                < self.nodes@[x].edges@.len() implies (visited@[(
                        #[trigger] self.nodes@[x].edges@[j2]).1 as int] || pending(
                            stack@,
                            0,
                            self.nodes@[x].edges@[j2].1,
                        )) by {
                            let m = self.nodes@[x].edges@[j2].1;
                            if !visited@[m as int] && pending(sb, 0, m) {
                                lemma_pending_push(sb, 0, m, to);
                            }
                        }
                        assert forall|j2: int| 0 <= j2 < j + 1 implies (visited@[(
                        #[trigger] self.nodes@[idu as int].edges@[j2]).1 as int] || pending(
                            stack@,
                            0,
                            self.nodes@[idu as int].edges@[j2].1,
                        )) by {
                            let m = self.nodes@[idu as int].edges@[j2].1;
                            if j2 == j {
                                if !visited@[m as int] {
                                    assert(m == to);
                                    assert(stack@[sb.len() as int] == to);
                                }
                            } else {
                                if !visited@[m as int] && pending(sb, 0, m) {
                                    lemma_pending_push(sb, 0, m, to);
                                }
                            }
                        }
                    }
                    j = j + 1;
                }
                proof {
                    // The stack now holds exactly the spec's extension,
                    // so the traversal equation advances by one step.
                    let edges = self.nodes@[idu as int].edges@;
                    assert(fresh_targets(edges, edges.len() as int, visited@) =~= Seq::<
                        i32,
                    >::empty());
                    assert(stack@ + fresh_targets(edges, edges.len() as int, visited@) =~= stack@);
                    assert(stack@ == s0.drop_last() + fresh_targets(edges, 0, visited@));
                    assert(self.dfs_from(s0, visited0) == seq![id] + self.dfs_from(
                        stack@,
                        visited@,
                    ));
                    assert(out@ + self.dfs_from(stack@, visited@) =~= (out0 + self.dfs_from(
                        s0,
                        visited0,
                    )));
                }
            } else {
                proof {
                    assert(self.dfs_from(s0, visited@) == self.dfs_from(s0.drop_last(), visited@));
                    // Skipping an already-visited entry keeps every
                    // neighbor obligation: the entry that left the
                    // stack is itself visited.
                    assert forall|x: int, j: int|
                        0 <= x < n && visited@[x] && 0 <= j < self.nodes@[x].edges@.len() implies (
                    visited@[(#[trigger] self.nodes@[x].edges@[j]).1 as int] || pending(
                        stack@,
                        0,
                        self.nodes@[x].edges@[j].1,
                    )) by {
                        let m = self.nodes@[x].edges@[j].1;
                        if !visited@[m as int] {
                            assert(pending(s0, 0, m));
                            let p = choose|p: int| 0 <= p < s0.len() && s0[p] == m;
                            if p == s0.len() - 1 {
                                assert(m == id);
                                assert(visited@[idu as int]);
                            } else {
                                assert(stack@[p] == m);
                            }
                        }
                    }
                }
            }
        }
        proof {
            assert(self.dfs_from(stack@, visited@) =~= Seq::<i32>::empty());
            assert(out@ + Seq::<i32>::empty() =~= out@);
            // The stack is exhausted, so the visited set is closed
            // under edges; everything reachable from the root is in it.
            assert forall|y: i32| self.valid_id(y) && self.reachable(self.root, y) implies out@.contains(
                y,
            ) by {
                assert forall|x: int, j: int|
                    0 <= x < n && visited@[x] && 0 <= j < self.nodes@[x].edges@.len() implies visited@[(
                #[trigger] self.nodes@[x].edges@[j]).1 as int] by {
                    let m = self.nodes@[x].edges@[j].1;
                    if !visited@[m as int] {
                        assert(pending(stack@, 0, m));
                        let p = choose|p: int| 0 <= p < stack@.len() && stack@[p] == m;
                        assert(false);
                    }
                }
                assert(out@.len() > 0 && out@[0] == self.root);
                assert(visited@[self.root as int]);
                let k = choose|k: nat| self.reachable_in(self.root, y, k);
                self.lemma_closed_reaches(visited@, self.root, y, k);
                assert(visited@[y as int]);
            }
        }
        out
    }

    /// The payloads of the nodes reachable from the root, cloned in
    /// breadth-first visit order: element `i` is a clone of the data
    /// of node `bfs_seq()[i]`.
    pub fn bfs_map(&self) -> (r: Vec<T>)
        requires
            self.wf(),
        ensures
            r@.len() == self.bfs_seq().len(),
            forall|i: int|
                0 <= i < r@.len() ==> vstd::pervasive::cloned::<T>(
                    self.nodes@[self.bfs_seq()[i] as int].data,
                    #[trigger] r@[i],
                ),
            r@.len() <= self.nodes@.len(),
            !self.valid_id(self.root) ==> r@.len() == 0,
            self.valid_id(self.root) ==> r@.len() >= 1,
    {
        let ids = self.bfs_ids();
        let ghost ids_view = ids@;
        let r = self.data_of(ids);
        proof {
            assert forall|i: int| 0 <= i < r@.len() implies vstd::pervasive::cloned::<T>(
                self.nodes@[self.bfs_seq()[i] as int].data,
                #[trigger] r@[i],
            ) by {
                assert(ids_view[i] == self.bfs_seq()[i]);
            }
        }
        r
    }

    /// The payloads of the nodes reachable from the root, cloned in
    /// depth-first visit order: element `i` is a clone of the data of
    /// node `dfs_seq()[i]`.
    pub fn dfs_map(&self) -> (r: Vec<T>)
        requires
            self.wf(),
        ensures
            r@.len() == self.dfs_seq().len(),
            forall|i: int|
                0 <= i < r@.len() ==> vstd::pervasive::cloned::<T>(
                    self.nodes@[self.dfs_seq()[i] as int].data,
                    #[trigger] r@[i],
                ),
            r@.len() <= self.nodes@.len(),
            !self.valid_id(self.root) ==> r@.len() == 0,
            self.valid_id(self.root) ==> r@.len() >= 1,
    {
        let ids = self.dfs_ids();
        let ghost ids_view = ids@;
        let r = self.data_of(ids);
        proof {
            assert forall|i: int| 0 <= i < r@.len() implies vstd::pervasive::cloned::<T>(
                self.nodes@[self.dfs_seq()[i] as int].data,
                #[trigger] r@[i],
            ) by {
                assert(ids_view[i] == self.dfs_seq()[i]);
            }
        }
        r
    }

    /// The cheapest path found from `start` to `end` by repeated edge
    /// relaxation, as node ids from `start` to `end`: nonempty
    /// whenever `end` is reachable from `start`, empty when either id
    /// names no node or no path exists. With nonnegative edge costs
    /// the result is a shortest path: no edge path from `start` to
    /// `end` costs less.
    #[verifier::rlimit(80)]
    #[verifier::spinoff_prover]
    pub fn dijkstra(&self, start: i32, end: i32) -> (r: Vec<i32>)
        requires
            self.wf(),
        ensures
            forall|i: int| 0 <= i < r@.len() ==> self.valid_id(#[trigger] r@[i]),
            r@.len() > 0 ==> r@.first() == start && r@.last() == end,
            forall|i: int|
                0 <= i < r@.len() - 1 ==> self.has_edge(#[trigger] r@[i] as int, r@[i + 1]),
            !(self.valid_id(start) && self.valid_id(end)) ==> r@.len() == 0,
            self.valid_id(start) && self.valid_id(end) && self.reachable(start, end) ==> r@.len()
                > 0,
            self.valid_id(start) && start == end ==> r@ == seq![start],
            self.costs_nonneg() ==> forall|p: Seq<i32>|
                self.is_edge_path(p) && p.first() == start && p.last() == end
                    ==> self.path_cost(r@) <= #[trigger] self.path_cost(p),
    {
        let n = self.nodes.len();
        if !(start >= 0 && (start as usize) < n && end >= 0 && (end as usize) < n) {
            proof {
                assert forall|p: Seq<i32>|
                    self.is_edge_path(p) && p.first() == start && p.last() == end implies 0 <= (
                #[trigger] self.path_cost(p)) by {
                    assert(self.valid_id(p[0]));
                }
            }
            return Vec::new();
        }
        // Best known distance to each node, the predecessor on the
        // path that achieved it (-1 for none), and the settled nodes.
        let mut dist: Vec<i64> = repeat_val(i64::MAX, n);
        let mut prev: Vec<i32> = repeat_val(-1, n);
        let mut visited: Vec<bool> = repeat_val(false, n);
        let mut heap: Vec<NodeState> = Vec::new();
        let ghost mut vorder: Seq<i32> = Seq::empty();
        dist[start as usize] = 0;
        heap.push(NodeState { id: start, cost: 0 });
        proof {
            lemma_sum_shift_nonneg(dist@);
            assert(heap@ =~= seq![(NodeState { id: start, cost: 0 })]);
            assert(heap_has_at(heap@, start, 0)) by {
                assert(heap@[0].id == start && heap@[0].cost == 0);
            }
            lemma_num_unvisited_full(visited@);
        }
        while heap.len() > 0
            invariant
                self.wf(),
                n == self.nodes@.len(),
                dist@.len() == n,
                prev@.len() == n,
                visited@.len() == n,
                0 <= start && start < n as i32,
                forall|i: int|
                    0 <= i < heap@.len() ==> 0 <= (#[trigger] heap@[i]).id && heap@[i].id
                        < n as i32,
                forall|x: int| 0 <= x < n ==> -1 <= #[trigger] prev@[x] && prev@[x] < n as i32,
                // every finite distance is capped, so it can never be
                // mistaken for "unreached"
                forall|x: int|
                    0 <= x < n ==> ((#[trigger] dist@[x]) == i64::MAX || -COST_CAP <= dist@[x]
                        <= COST_CAP),
                // a predecessor entry names a real edge
                forall|x: int|
                    0 <= x < n && #[trigger] prev@[x] >= 0 ==> self.has_edge(
                        prev@[x] as int,
                        x as i32,
                    ),
                // until the start is settled, the heap holds only the
                // initial entry
                visited@[start as int] || heap@ == seq![(NodeState { id: start, cost: 0 })],
                prev@[start as int] == -1,
                dist@[start as int] == 0,
                // a heap entry's cost is capped and never beats the
                // node's current distance
                forall|i: int|
                    0 <= i < heap@.len() ==> -COST_CAP <= (#[trigger] heap@[i]).cost <= COST_CAP,
                forall|i: int|
                    0 <= i < heap@.len() ==> dist@[(#[trigger] heap@[i]).id as int] <= heap@[i].cost,
                // a settled node's distance is final and finite
                forall|x: int|
                    0 <= x < n && #[trigger] visited@[x] ==> -COST_CAP <= dist@[x] <= COST_CAP,
                // with nonnegative costs, all stored sums stay small
                // enough that clamping never fires: a cost is at most
                // one step per settled node
                self.costs_nonneg() ==> forall|i: int|
                    0 <= i < heap@.len() ==> 0 <= (#[trigger] heap@[i]).cost && heap@[i].cost <= (
                    n as int - num_unvisited(visited@)) * 0x8000_0000,
                self.costs_nonneg() ==> forall|x: int|
                    0 <= x < n && #[trigger] visited@[x] ==> 0 <= dist@[x] && dist@[x] <= (n as int
                        - num_unvisited(visited@) - 1) * 0x8000_0000,
                self.costs_nonneg() ==> forall|x: int|
                    0 <= x < n && (#[trigger] dist@[x]) < i64::MAX ==> 0 <= dist@[x] && dist@[x]
                        <= (n as int - num_unvisited(visited@)) * 0x8000_0000,
                // a predecessor is always an already-settled node
                forall|x: int|
                    0 <= x < n && (#[trigger] prev@[x]) >= 0 ==> visited@[prev@[x] as int],
                // with nonnegative costs: no settled distance exceeds
                // a pending one, every settled node's edges are fully
                // relaxed, and each recorded predecessor accounts for
                // its node's distance
                self.costs_nonneg() ==> forall|x: int, i: int|
                    #![trigger visited@[x], heap@[i]]
                    0 <= x < n && visited@[x] && 0 <= i < heap@.len() ==> dist@[x]
                        <= heap@[i].cost,
                self.costs_nonneg() ==> forall|v: int, j: int|
                    0 <= v < n && visited@[v] && 0 <= j < self.nodes@[v].edges@.len()
                        ==> dist@[(#[trigger] self.nodes@[v].edges@[j]).1 as int] <= dist@[v]
                        + self.nodes@[v].edges@[j].0,
                self.costs_nonneg() ==> forall|x: int|
                    0 <= x < n && (#[trigger] prev@[x]) >= 0 ==> dist@[x] < i64::MAX && dist@[x]
                        >= dist@[prev@[x] as int] + self.edge_min(prev@[x] as int, x as i32),
                // with nonnegative costs, a settled node's distance is
                // optimal: no path from the start beats it
                self.costs_nonneg() ==> forall|p: Seq<i32>|
                    self.is_edge_path(p) && p.first() == start && visited@[p.last() as int]
                        ==> dist@[p.last() as int] <= #[trigger] self.path_cost(p),
                // every heap entry other than the initial one was
                // pushed by a relaxation that set a predecessor
                forall|i: int|
                    0 <= i < heap@.len() ==> ((#[trigger] heap@[i]).id == start
                        || prev@[heap@[i].id as int] >= 0),
                // an unsettled node with a finite distance has a heap
                // entry carrying exactly that distance
                forall|x: int|
                    0 <= x < n && !visited@[x] && (#[trigger] dist@[x]) < i64::MAX ==> heap_has_at(
                        heap@,
                        x as i32,
                        dist@[x],
                    ),
                // a settled node's neighbors are settled or reached
                forall|x: int, j: int|
                    0 <= x < n && visited@[x] && 0 <= j < self.nodes@[x].edges@.len()
                        ==> (visited@[(#[trigger] self.nodes@[x].edges@[j]).1 as int]
                        || dist@[self.nodes@[x].edges@[j].1 as int] < i64::MAX),
                // only the start settles without a predecessor
                forall|x: int|
                    0 <= x < n && (#[trigger] visited@[x]) && x != start as int ==> prev@[x] >= 0,
                // `vorder` lists the settled nodes in settlement order
                forall|i: int|
                    0 <= i < vorder.len() ==> 0 <= (#[trigger] vorder[i]) && vorder[i] < n as i32
                        && visited@[vorder[i] as int],
                forall|x: int| 0 <= x < n && (#[trigger] visited@[x]) ==> vorder.contains(x as i32),
                vorder.no_duplicates(),
                vorder.len() <= n,
                // a settled node's predecessor settled strictly earlier
                forall|i: int|
                    0 <= i < vorder.len() ==> ((#[trigger] vorder[i]) == start || (exists|jj: int|
                        0 <= jj < i && vorder[jj] == prev@[vorder[i] as int])),
                // an unsettled node's predecessor is settled
                forall|x: int|
                    0 <= x < n && !visited@[x] && (#[trigger] prev@[x]) >= 0 ==> vorder.contains(
                        prev@[x],
                    ),
                sum_shift(dist@) >= 0,
            decreases heap@.len() + sum_shift(dist@),
        {
            // Pick the cheapest pending state by a linear scan.
            let mut best: usize = 0;
            let mut j: usize = 1;
            while j < heap.len()
                invariant
                    heap@.len() > 0,
                    best < heap@.len(),
                    j <= heap@.len(),
                    forall|i: int|
                        0 <= i < j ==> heap@[best as int].cost <= (#[trigger] heap@[i]).cost,
                decreases heap@.len() - j,
            {
                if heap[j].cost < heap[best].cost {
                    best = j;
                }
                j = j + 1;
            }
            let ghost heap0 = heap@;
            let state = heap.swap_remove(best);
            proof {
                assert(state == heap0[best as int]);
                assert(0 <= state.id && state.id < n as i32);
                assert(heap@ == heap0.update(best as int, heap0.last()).drop_last());
                assert forall|i: int| 0 <= i < heap@.len() implies (#[trigger] heap@[i]) == heap0[i]
                    || heap@[i] == heap0.last() by {}
                // Every other node keeps its exact-distance entry.
                assert forall|x: int|
                    0 <= x < n && !visited@[x] && x != state.id as int && (#[trigger] dist@[x])
                        < i64::MAX implies heap_has_at(heap@, x as i32, dist@[x]) by {
                    let p = choose|p: int|
                        0 <= p < heap0.len() && (#[trigger] heap0[p]).id == x as i32
                            && heap0[p].cost == dist@[x];
                    if p == best as int {
                        assert(heap0[p].id == state.id);
                        assert(false);
                    } else if p == heap0.len() - 1 {
                        assert(heap@[best as int] == heap0[p]);
                    } else {
                        assert(heap@[p] == heap0[p]);
                    }
                }
                assert(!visited@[start as int] ==> state.id == start) by {
                    if !visited@[start as int] {
                        assert(heap0 == seq![(NodeState { id: start, cost: 0 })]);
                        assert(heap0[0] == (NodeState { id: start, cost: 0 }));
                        assert(best == 0);
                    }
                }
            }
            let su = state.id as usize;
            if state.cost > dist[su] {
                // A stale entry: this node was settled with a better
                // distance since the entry was pushed. Its
                // exact-distance entry is not the one just removed.
                proof {
                    assert(visited@[start as int]) by {
                        if !visited@[start as int] {
                            assert(state.id == start && state.cost == 0);
                            assert(dist@[start as int] == 0);
                        }
                    }
                    if !visited@[su as int] && dist@[su as int] < i64::MAX {
                        let p = choose|p: int|
                            0 <= p < heap0.len() && (#[trigger] heap0[p]).id == su as i32
                                && heap0[p].cost == dist@[su as int];
                        assert(p != best as int);
                        if p == heap0.len() - 1 {
                            assert(heap@[best as int] == heap0[p]);
                        } else {
                            assert(heap@[p] == heap0[p]);
                        }
                    }
                }
                continue ;
            }
            proof {
                // The stale test let this entry through, and no entry
                // beats its node's distance: the entry is exact.
                assert(dist@[su as int] <= state.cost);
                assert(state.cost == dist@[su as int]);
                assert(-COST_CAP <= dist@[su as int] <= COST_CAP);
            }
            let ghost visited0 = visited@;
            let ghost vorder0 = vorder;
            let already = visited[su];
            visited[su] = true;
            proof {
                if !already {
                    lemma_num_unvisited_set(visited0, su as int);
                    lemma_num_unvisited_bounds(visited@);
                    assert(!vorder0.contains(state.id)) by {
                        if vorder0.contains(state.id) {
                            let i = vorder0.index_of(state.id);
                            assert(visited0[vorder0[i] as int]);
                        }
                    }
                    vorder = vorder0.push(state.id);
                    assert(vorder.drop_last() =~= vorder0);
                    assert(vorder.no_duplicates()) by {
                        assert forall|i: int, j: int|
                            0 <= i < vorder.len() && 0 <= j < vorder.len() && i != j implies vorder[i]
                            != vorder[j] by {
                            if i < vorder.len() - 1 && j < vorder.len() - 1 {
                                assert(vorder[i] == vorder0[i] && vorder[j] == vorder0[j]);
                            } else if i == vorder.len() - 1 {
                                assert(vorder[j] == vorder0[j] && !vorder0.contains(state.id));
                            } else {
                                assert(vorder[i] == vorder0[i] && !vorder0.contains(state.id));
                            }
                        }
                    }
                    assert forall|x: int|
                        0 <= x < n && (#[trigger] visited@[x]) implies vorder.contains(x as i32) by {
                        if x == su as int {
                            assert(vorder[vorder.len() - 1] == state.id);
                        } else {
                            assert(visited0[x]);
                            assert(vorder0.contains(x as i32));
                            let i = vorder0.index_of(x as i32);
                            assert(vorder[i] == x as i32);
                        }
                    }
                    assert(vorder.len() <= n) by {
                        vorder.unique_seq_to_set();
                        lemma_int_range_card(n as int);
                        assert(vorder.to_set().subset_of(int_id_range(n as int)));
                        vstd::set_lib::lemma_len_subset(vorder.to_set(), int_id_range(n as int));
                    }
                    // The newcomer's predecessor, if any, settled
                    // strictly earlier.
                    assert forall|i: int| 0 <= i < vorder.len() implies ((#[trigger] vorder[i])
                        == start || (exists|jj: int|
                        0 <= jj < i && vorder[jj] == prev@[vorder[i] as int])) by {
                        if i < vorder.len() - 1 {
                            assert(vorder[i] == vorder0[i]);
                        } else {
                            assert(vorder[i] == state.id);
                            if state.id != start {
                                assert(prev@[su as int] >= 0);
                                assert(vorder0.contains(prev@[su as int]));
                                let jj = vorder0.index_of(prev@[su as int]);
                                assert(vorder[jj] == prev@[su as int]);
                            }
                        }
                    }
                    assert forall|x: int|
                        0 <= x < n && !visited@[x] && (#[trigger] prev@[x]) >= 0 implies vorder.contains(
                        prev@[x],
                    ) by {
                        assert(!visited0[x]);
                        assert(vorder0.contains(prev@[x]));
                        let i = vorder0.index_of(prev@[x]);
                        assert(vorder[i] == prev@[x]);
                    }
                }
                assert(visited@[start as int]);
            }
            proof {
                if already {
                    assert(visited@ =~= visited0);
                }
                if self.costs_nonneg() {
                    let ku = num_unvisited(visited@);
                    let ku0 = num_unvisited(visited0);
                    lemma_num_unvisited_bounds(visited0);
                    assert(heap0[best as int].cost == state.cost);
                    assert(0 <= state.cost && state.cost <= (n as int - ku0) * 0x8000_0000);
                    assert forall|x: int| 0 <= x < n && #[trigger] visited@[x] implies 0
                        <= dist@[x] && dist@[x] <= (n as int - ku - 1) * 0x8000_0000 by {
                        if x == su as int {
                            assert(dist@[x] == state.cost);
                        } else {
                            assert(visited0[x]);
                            assert(0 <= dist@[x] && dist@[x] <= (n as int - ku0 - 1)
                                * 0x8000_0000);
                        }
                    }
                    assert forall|i: int| 0 <= i < heap@.len() implies 0 <= (
                    #[trigger] heap@[i]).cost && heap@[i].cost <= (n as int - ku) * 0x8000_0000 by {
                        assert(heap@[i] == heap0[i] || heap@[i] == heap0.last());
                    }
                    assert forall|x: int|
                        0 <= x < n && (#[trigger] dist@[x]) < i64::MAX implies 0 <= dist@[x]
                            && dist@[x] <= (n as int - ku) * 0x8000_0000 by {}
                    // Settlement happens in optimal order: no path
                    // from the start undercuts the settled distance.
                    assert forall|p: Seq<i32>|
                        self.is_edge_path(p) && p.first() == start && visited@[p.last() as int] implies dist@[p.last() as int]
                        <= #[trigger] self.path_cost(p) by {
                        if visited0[p.last() as int] {
                        } else {
                            assert(p.last() as int == su as int);
                            if !visited0[start as int] {
                                assert(state.id == start && state.cost == 0);
                                assert(dist@[su as int] == 0);
                                self.lemma_path_cost_nonneg(p);
                            } else {
                                assert(forall|i: int|
                                    0 <= i < heap0.len() ==> state.cost <= (
                                    #[trigger] heap0[i]).cost);
                                self.lemma_path_bound(p, visited0, dist@, heap0, state.cost);
                                assert(dist@[start as int] == 0);
                                assert(dist@[su as int] == state.cost);
                            }
                        }
                    }
                }
            }
            let ghost m0 = heap@.len() + sum_shift(dist@);
            let node = &self.nodes[su];
            let mut e: usize = 0;
            while e < node.edges.len()
                invariant
                    self.wf(),
                    n == self.nodes@.len(),
                    dist@.len() == n,
                    prev@.len() == n,
                    visited@.len() == n,
                    0 <= su < n,
                    state.id == su as i32,
                    0 <= start && start < n as i32,
                    visited@[su as int],
                    visited@[start as int],
                    state.cost == dist@[su as int],
                    dist@[start as int] == 0,
                    node == &self.nodes@[su as int],
                    forall|i: int|
                        0 <= i < heap@.len() ==> -COST_CAP <= (#[trigger] heap@[i]).cost
                            <= COST_CAP,
                    forall|i: int|
                        0 <= i < heap@.len() ==> dist@[(#[trigger] heap@[i]).id as int]
                            <= heap@[i].cost,
                    forall|x: int|
                        0 <= x < n && #[trigger] visited@[x] ==> -COST_CAP <= dist@[x] <= COST_CAP,
                    self.costs_nonneg() ==> forall|i: int|
                        0 <= i < heap@.len() ==> 0 <= (#[trigger] heap@[i]).cost && heap@[i].cost
                            <= (n as int - num_unvisited(visited@)) * 0x8000_0000,
                    self.costs_nonneg() ==> forall|x: int|
                        0 <= x < n && #[trigger] visited@[x] ==> 0 <= dist@[x] && dist@[x] <= (
                        n as int - num_unvisited(visited@) - 1) * 0x8000_0000,
                    self.costs_nonneg() ==> forall|x: int|
                        0 <= x < n && (#[trigger] dist@[x]) < i64::MAX ==> 0 <= dist@[x]
                            && dist@[x] <= (n as int - num_unvisited(visited@)) * 0x8000_0000,
                    forall|x: int|
                        0 <= x < n && (#[trigger] prev@[x]) >= 0 ==> visited@[prev@[x] as int],
                    self.costs_nonneg() ==> forall|x: int|
                        0 <= x < n && #[trigger] visited@[x] ==> dist@[x] <= state.cost,
                    self.costs_nonneg() ==> forall|x: int, i: int|
                        #![trigger visited@[x], heap@[i]]
                        0 <= x < n && visited@[x] && 0 <= i < heap@.len() ==> dist@[x]
                            <= heap@[i].cost,
                    self.costs_nonneg() ==> forall|v: int, j2: int|
                        0 <= v < n && visited@[v] && v != su as int && 0 <= j2
                            < self.nodes@[v].edges@.len() ==> dist@[(
                        #[trigger] self.nodes@[v].edges@[j2]).1 as int] <= dist@[v]
                            + self.nodes@[v].edges@[j2].0,
                    self.costs_nonneg() ==> forall|j2: int|
                        0 <= j2 < e ==> dist@[(#[trigger] self.nodes@[su as int].edges@[j2]).1 as int]
                            <= dist@[su as int] + self.nodes@[su as int].edges@[j2].0,
                    self.costs_nonneg() ==> forall|x: int|
                        0 <= x < n && (#[trigger] prev@[x]) >= 0 ==> dist@[x] < i64::MAX
                            && dist@[x] >= dist@[prev@[x] as int] + self.edge_min(
                            prev@[x] as int,
                            x as i32,
                        ),
                    self.costs_nonneg() ==> forall|p: Seq<i32>|
                        self.is_edge_path(p) && p.first() == start && visited@[p.last() as int]
                            ==> dist@[p.last() as int] <= #[trigger] self.path_cost(p),
                    forall|i: int|
                        0 <= i < heap@.len() ==> 0 <= (#[trigger] heap@[i]).id && heap@[i].id
                            < n as i32,
                    forall|x: int| 0 <= x < n ==> -1 <= #[trigger] prev@[x] && prev@[x] < n as i32,
                    forall|x: int|
                        0 <= x < n ==> ((#[trigger] dist@[x]) == i64::MAX || -COST_CAP <= dist@[x]
                            <= COST_CAP),
                    forall|x: int|
                        0 <= x < n && #[trigger] prev@[x] >= 0 ==> self.has_edge(
                            prev@[x] as int,
                            x as i32,
                        ),
                    prev@[start as int] == -1,
                    forall|i: int|
                        0 <= i < heap@.len() ==> ((#[trigger] heap@[i]).id == start
                            || prev@[heap@[i].id as int] >= 0),
                    forall|x: int|
                        0 <= x < n && !visited@[x] && (#[trigger] dist@[x]) < i64::MAX
                            ==> heap_has_at(heap@, x as i32, dist@[x]),
                    forall|x: int, j2: int|
                        0 <= x < n && visited@[x] && x != su as int && 0 <= j2
                            < self.nodes@[x].edges@.len() ==> (visited@[(
                        #[trigger] self.nodes@[x].edges@[j2]).1 as int]
                            || dist@[self.nodes@[x].edges@[j2].1 as int] < i64::MAX),
                    forall|j2: int|
                        0 <= j2 < e ==> (visited@[(
                        #[trigger] self.nodes@[su as int].edges@[j2]).1 as int]
                            || dist@[self.nodes@[su as int].edges@[j2].1 as int] < i64::MAX),
                    forall|x: int|
                        0 <= x < n && (#[trigger] visited@[x]) && x != start as int ==> prev@[x]
                            >= 0,
                    forall|i: int|
                        0 <= i < vorder.len() ==> 0 <= (#[trigger] vorder[i]) && vorder[i]
                            < n as i32 && visited@[vorder[i] as int],
                    forall|x: int|
                        0 <= x < n && (#[trigger] visited@[x]) ==> vorder.contains(x as i32),
                    vorder.no_duplicates(),
                    vorder.len() <= n,
                    forall|i: int|
                        0 <= i < vorder.len() ==> ((#[trigger] vorder[i]) == start || (exists|
                            jj: int,
                        |
                            0 <= jj < i && vorder[jj] == prev@[vorder[i] as int])),
                    forall|x: int|
                        0 <= x < n && !visited@[x] && (#[trigger] prev@[x]) >= 0 ==> vorder.contains(
                            prev@[x],
                        ),
                    heap@.len() + sum_shift(dist@) <= m0,
                    sum_shift(dist@) >= 0,
                decreases node.edges@.len() - e,
            {
                let (ecost, to) = node.edges[e];
                let tou = to as usize;
                if !visited[tou] {
                    // A cost sum beyond the cap cannot displace any
                    // stored distance; clamp it to the nearest bound.
                    let alt: i128 = state.cost as i128 + ecost as i128;
                    let stored: i64 = if alt < (-COST_CAP) as i128 {
                        -COST_CAP
                    } else if alt > COST_CAP as i128 {
                        COST_CAP
                    } else {
                        alt as i64
                    };
                    proof {
                        if self.costs_nonneg() {
                            // The sum stays below the cap: each settled
                            // node contributed at most one edge step.
                            lemma_num_unvisited_bounds(visited@);
                            assert(self.nodes@[su as int].edges@[e as int].0 >= 0);
                            assert(0 <= state.cost <= (n as int - num_unvisited(visited@) - 1)
                                * 0x8000_0000);
                            assert((n as int - num_unvisited(visited@)) * 0x8000_0000 <= (
                            n as int) * 0x8000_0000);
                            assert((n as int) * 0x8000_0000 <= 0x7FFF_FFFF * 0x8000_0000);
                            assert(0 <= alt && alt <= (n as int - num_unvisited(visited@))
                                * 0x8000_0000);
                            assert(stored == alt);
                        }
                    }
                    if stored < dist[tou] {
                        let ghost db = dist@;
                        let ghost hb = heap@;
                        proof {
                            lemma_sum_shift_update(dist@, tou as int, stored);
                        }
                        dist[tou] = stored;
                        prev[tou] = state.id;
                        heap.push(NodeState { id: to, cost: stored });
                        proof {
                            lemma_sum_shift_nonneg(dist@);
                            assert(self.nodes@[su as int].edges@[e as int].1 == to);
                            assert(self.has_edge(state.id as int, tou as i32));
                            assert(heap@ == hb.push(NodeState { id: to, cost: stored }));
                            assert(heap@[heap@.len() - 1] == (NodeState { id: to, cost: stored }));
                            assert forall|x: int|
                                0 <= x < n && !visited@[x] && (#[trigger] dist@[x]) < i64::MAX implies heap_has_at(
                                heap@,
                                x as i32,
                                dist@[x],
                            ) by {
                                if x == tou as int {
                                    assert(heap@[heap@.len() - 1].id == x as i32);
                                } else {
                                    assert(dist@[x] == db[x]);
                                    assert(heap_has_at(hb, x as i32, db[x]));
                                    let p = choose|p: int|
                                        0 <= p < hb.len() && (#[trigger] hb[p]).id == x as i32
                                            && hb[p].cost == db[x];
                                    assert(heap@[p] == hb[p]);
                                }
                            }
                            // vorder facts survive: prev changed only
                            // at `tou`, which is unsettled.
                            assert forall|i: int| 0 <= i < vorder.len() implies ((
                            #[trigger] vorder[i]) == start || (exists|jj: int|
                                0 <= jj < i && vorder[jj] == prev@[vorder[i] as int])) by {
                                assert(visited@[vorder[i] as int]);
                                assert(vorder[i] as int != tou as int);
                            }
                            assert(vorder.contains(state.id));
                            if self.costs_nonneg() {
                                lemma_min_le(self.nodes@[su as int].edges@, 0, e as int, to);
                                assert(stored == db[su as int]
                                    + self.nodes@[su as int].edges@[e as int].0);
                                assert forall|x: int|
                                    0 <= x < n && (#[trigger] prev@[x]) >= 0 implies dist@[x]
                                    < i64::MAX && dist@[x] >= dist@[prev@[x] as int]
                                    + self.edge_min(prev@[x] as int, x as i32) by {
                                    if x == tou as int {
                                        assert(prev@[x] == su as i32);
                                        assert(dist@[x] == stored);
                                        assert(dist@[prev@[x] as int] == db[su as int]);
                                    } else {
                                        assert(visited@[prev@[x] as int]);
                                        assert(prev@[x] as int != tou as int);
                                        assert(dist@[x] == db[x]);
                                        assert(dist@[prev@[x] as int] == db[prev@[x] as int]);
                                    }
                                }
                                assert forall|x: int, i: int|
                                    #![trigger visited@[x], heap@[i]]
                                    0 <= x < n && visited@[x] && 0 <= i < heap@.len() implies dist@[x]
                                    <= heap@[i].cost by {
                                    assert(dist@[x] == db[x] && db[x] <= state.cost);
                                    if i < heap@.len() - 1 {
                                        assert(heap@[i] == hb[i]);
                                    } else {
                                        assert(heap@[i].cost == stored && stored >= state.cost);
                                    }
                                }
                                assert forall|p: Seq<i32>|
                                    self.is_edge_path(p) && p.first() == start
                                        && visited@[p.last() as int] implies dist@[p.last() as int]
                                    <= #[trigger] self.path_cost(p) by {
                                    assert(p.last() as int != tou as int);
                                    assert(dist@[p.last() as int] == db[p.last() as int]);
                                }
                            }
                        }
                    }
                }
                proof {
                    if self.costs_nonneg() {
                        // The edge just scanned is now fully relaxed,
                        // whichever branch ran.
                        assert forall|j2: int| 0 <= j2 < e + 1 implies dist@[(
                        #[trigger] self.nodes@[su as int].edges@[j2]).1 as int] <= dist@[su as int]
                            + self.nodes@[su as int].edges@[j2].0 by {
                            if j2 == e {
                                let m = self.nodes@[su as int].edges@[e as int].1;
                                assert(m == to);
                                if visited@[to as int] {
                                    assert(dist@[to as int] <= state.cost);
                                    assert(self.nodes@[su as int].edges@[e as int].0 >= 0);
                                } else {
                                    assert(dist@[to as int] <= state.cost
                                        + self.nodes@[su as int].edges@[e as int].0);
                                }
                            }
                        }
                    }
                }
                e = e + 1;
            }
        }
        // The search is finished: everything reachable from the start
        // is settled, every settled node's predecessor chain walks
        // back through strictly earlier settlements, and only the
        // start has none.
        proof {
            assert forall|x: int, j: int|
                0 <= x < n && visited@[x] && 0 <= j < self.nodes@[x].edges@.len() implies visited@[(
            #[trigger] self.nodes@[x].edges@[j]).1 as int] by {
                let m = self.nodes@[x].edges@[j].1;
                if !visited@[m as int] && dist@[m as int] < i64::MAX {
                    let p = choose|p: int|
                        0 <= p < heap@.len() && (#[trigger] heap@[p]).id == m && heap@[p].cost
                            == dist@[m as int];
                    assert(false);
                }
            }
            assert(visited@[start as int]);
            if self.reachable(start, end) {
                let k = choose|k: nat| self.reachable_in(start, end, k);
                self.lemma_closed_reaches(visited@, start, end, k);
                assert(visited@[end as int]);
                assert(vorder.contains(end));
            }
        }
        // Walk the predecessor chain from the end back to the start.
        let mut path: Vec<i32> = Vec::new();
        path.push(end);
        proof {
            assert(path@ =~= seq![end]);
        }
        let mut curr = end;
        let mut steps: usize = 0;
        while prev[curr as usize] >= 0
            invariant
                self.wf(),
                n == self.nodes@.len(),
                prev@.len() == n,
                visited@.len() == n,
                0 <= curr && curr < n as i32,
                0 <= start && start < n as i32,
                0 <= end && end < n as i32,
                steps <= n,
                path@.len() == steps + 1,
                path@[0] == curr,
                path@[path@.len() - 1] == end,
                forall|i: int|
                    0 <= i < path@.len() ==> 0 <= #[trigger] path@[i] && path@[i] < n as i32,
                forall|i: int|
                    0 <= i < path@.len() - 1 ==> self.has_edge(#[trigger] path@[i] as int, path@[i + 1]),
                forall|x: int| 0 <= x < n ==> -1 <= #[trigger] prev@[x] && prev@[x] < n as i32,
                forall|x: int|
                    0 <= x < n && #[trigger] prev@[x] >= 0 ==> self.has_edge(
                        prev@[x] as int,
                        x as i32,
                    ),
                prev@[start as int] == -1,
                start == end ==> (curr == start && path@ == seq![start]),
                // the settlement order and its laws, frozen by now
                forall|i: int|
                    0 <= i < vorder.len() ==> 0 <= (#[trigger] vorder[i]) && vorder[i] < n as i32
                        && visited@[vorder[i] as int],
                vorder.no_duplicates(),
                vorder.len() <= n,
                forall|i: int|
                    0 <= i < vorder.len() ==> ((#[trigger] vorder[i]) == start || (exists|jj: int|
                        0 <= jj < i && vorder[jj] == prev@[vorder[i] as int])),
                forall|x: int|
                    0 <= x < n && (#[trigger] visited@[x]) && x != start as int ==> prev@[x] >= 0,
                forall|x: int| 0 <= x < n && (#[trigger] visited@[x]) ==> vorder.contains(x as i32),
                // while a path exists, the walk descends the
                // settlement order from the end toward the start
                self.reachable(start, end) ==> vorder.contains(end),
                self.reachable(start, end) ==> (vorder.contains(curr) && vorder.index_of(curr)
                    + steps <= vorder.index_of(end)),
                // with nonnegative costs the walked prefix never costs
                // more than the distance it has still to cover
                dist@.len() == n,
                dist@[start as int] == 0,
                self.costs_nonneg() ==> forall|x: int|
                    0 <= x < n && (#[trigger] prev@[x]) >= 0 ==> dist@[x] < i64::MAX && dist@[x]
                        >= dist@[prev@[x] as int] + self.edge_min(prev@[x] as int, x as i32),
                self.costs_nonneg() ==> self.path_cost(path@) <= dist@[end as int] - dist@[curr as int],
            decreases n - steps,
        {
            if steps >= n {
                // Unreachable: the walk strictly descends the
                // settlement order, which is shorter than `n`.
                proof {
                    if self.reachable(start, end) {
                        let ie = vorder.index_of(end);
                        assert(0 <= ie < vorder.len());
                        assert(false);
                    }
                    if self.costs_nonneg() {
                        assert forall|p: Seq<i32>|
                            self.is_edge_path(p) && p.first() == start && p.last() == end implies 0
                            <= (#[trigger] self.path_cost(p)) by {
                            self.lemma_path_cost_nonneg(p);
                        }
                    }
                }
                return Vec::new();
            }
            let p = prev[curr as usize];
            let ghost path0 = path@;
            path.insert(0, p);
            proof {
                path0.insert_ensures(0, p);
                assert(path@[path@.len() - 1] == end);
                assert(self.has_edge(p as int, curr));
                assert forall|i: int| 0 <= i < path@.len() - 1 implies self.has_edge(
                    #[trigger] path@[i] as int,
                    path@[i + 1],
                ) by {
                    if i == 0 {
                        assert(path@[0] == p && path@[1] == curr);
                    } else {
                        assert(path@[i] == path0[i - 1] && path@[i + 1] == path0[i]);
                    }
                }
                if self.reachable(start, end) {
                    let ic = vorder.index_of(curr);
                    assert(0 <= ic < vorder.len() && vorder[ic] == curr);
                    assert(curr != start);
                    let jj = choose|jj: int| 0 <= jj < ic && vorder[jj] == prev@[curr as int];
                    let ip = vorder.index_of(p);
                    assert(vorder.contains(p)) by {
                        assert(vorder[jj] == p);
                    }
                    assert(0 <= ip < vorder.len() && vorder[ip] == p);
                    assert(ip == jj);
                    assert(ip < ic);
                }
                if self.costs_nonneg() {
                    assert(path@.drop_first() =~= path0);
                    assert(path@[0] == p && path@[1] == curr);
                    assert(self.path_cost(path@) == self.edge_min(p as int, curr)
                        + self.path_cost(path0));
                    assert(dist@[curr as int] >= dist@[p as int] + self.edge_min(p as int, curr));
                }
            }
            curr = p;
            steps = steps + 1;
        }
        if curr != start {
            // The chain ended short of the start, which cannot happen
            // for a settled end: `end` was never reached by the search.
            proof {
                if self.reachable(start, end) {
                    assert(vorder.contains(curr));
                    let ic = vorder.index_of(curr);
                    assert(visited@[vorder[ic] as int]);
                    assert(false);
                }
                if self.costs_nonneg() {
                    assert forall|p: Seq<i32>|
                        self.is_edge_path(p) && p.first() == start && p.last() == end implies 0
                        <= (#[trigger] self.path_cost(p)) by {
                        self.lemma_path_cost_nonneg(p);
                    }
                }
            }
            return Vec::new();
        }
        proof {
            if self.costs_nonneg() {
                // Any path to the end witnesses reachability, so the
                // end is settled at an optimal distance, and the walked
                // chain costs no more than that distance.
                assert forall|p: Seq<i32>|
                    self.is_edge_path(p) && p.first() == start && p.last() == end implies self.path_cost(
                    path@,
                ) <= (#[trigger] self.path_cost(p)) by {
                    self.lemma_path_reachable(p);
                    assert(self.reachable_in(start, end, (p.len() - 1) as nat));
                    assert(self.reachable(start, end));
                    assert(visited@[end as int]);
                    assert(dist@[end as int] <= self.path_cost(p));
                    assert(self.path_cost(path@) <= dist@[end as int] - dist@[start as int]);
                }
            }
        }
        path
    }

    /// Clone the payload of each listed node, in order.
    fn data_of(&self, ids: Vec<i32>) -> (r: Vec<T>)
        requires
            self.wf(),
            forall|i: int| 0 <= i < ids@.len() ==> self.valid_id(#[trigger] ids@[i]),
        ensures
            r@.len() == ids@.len(),
            forall|i: int|
                0 <= i < r@.len() ==> vstd::pervasive::cloned::<T>(
                    self.nodes@[ids@[i] as int].data,
                    #[trigger] r@[i],
                ),
    {
        let mut out: Vec<T> = Vec::new();
        let mut i: usize = 0;
        while i < ids.len()
            invariant
                self.wf(),
                i <= ids@.len(),
                out@.len() == i,
                forall|k: int| 0 <= k < ids@.len() ==> self.valid_id(#[trigger] ids@[k]),
                forall|k: int|
                    0 <= k < i ==> vstd::pervasive::cloned::<T>(
                        self.nodes@[ids@[k] as int].data,
                        #[trigger] out@[k],
                    ),
            decreases ids@.len() - i,
        {
            let idu = ids[i] as usize;
            out.push(self.nodes[idu].data.clone());
            i = i + 1;
        }
        out
    }
}

/// The ids below `n`, as a set.
spec fn int_id_range(n: int) -> Set<i32> {
    Set::new(|x: i32| 0 <= x < n)
}

/// There are at most `n` such ids.
proof fn lemma_int_range_card(n: int)
    requires
        0 <= n <= i32::MAX,
    ensures
        int_id_range(n).finite(),
        int_id_range(n).len() <= n,
    decreases n,
{
    if n == 0 {
        assert(int_id_range(0) =~= Set::<i32>::empty());
    } else {
        lemma_int_range_card(n - 1);
        assert(int_id_range(n) =~= int_id_range(n - 1).insert((n - 1) as i32));
    }
}

} // verus!
