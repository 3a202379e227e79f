//! The dependency graph of the artifacts met during a crawl, and its
//! topological order.

use vstd::prelude::*;

use crate::database::model::StorePathHash;
use crate::hash_index::{no_duplicates, position, HashIndex};

verus! {

/// What a dependency graph holds: its nodes in the order in which they were
/// added, and for each node the nodes it depends on, by position, one entry
/// for each dependency recorded.
pub struct DepGraphView {
    pub nodes: Seq<Seq<char>>,
    pub edges: Seq<Seq<int>>,
}

/// How often `v` stands in `list`.
pub open spec fn count_in(list: Seq<int>, v: int) -> nat
    decreases list.len(),
{
    if list.len() == 0 {
        0
    } else {
        (if list[0] == v {
            1nat
        } else {
            0nat
        }) + count_in(list.drop_first(), v)
    }
}

/// The number of edges into `v` from the first `upto` nodes.
pub open spec fn in_degree_upto(edges: Seq<Seq<int>>, upto: int, v: int) -> nat
    decreases upto,
{
    if upto <= 0 {
        0
    } else {
        in_degree_upto(edges, upto - 1, v) + count_in(edges[upto - 1], v)
    }
}

/// The number of edges into `v`.
pub open spec fn in_degree(edges: Seq<Seq<int>>, v: int) -> nat {
    in_degree_upto(edges, edges.len() as int, v)
}

/// The graph with one more edge, from the node `a` to the node `b`.
pub open spec fn add_edge(g: DepGraphView, a: Seq<char>, b: Seq<char>) -> DepGraphView {
    let i = position(g.nodes, a)->0;
    let k = position(g.nodes, b)->0;
    DepGraphView { nodes: g.nodes, edges: g.edges.update(i, g.edges[i].push(k)) }
}

/// Every edge goes to a node.
pub open spec fn edges_in_range(edges: Seq<Seq<int>>) -> bool {
    forall|a: int, j: int|
        0 <= a < edges.len() && 0 <= j < edges[a].len() ==> 0 <= #[trigger] edges[a][j]
            < edges.len()
}

/// The graph has no cycle: the nodes can be numbered so that every edge goes
/// to a higher number.
pub open spec fn is_acyclic(edges: Seq<Seq<int>>) -> bool {
    exists|rank: Seq<nat>| is_ranking(edges, rank)
}

/// `rank` numbers the nodes so that every edge goes to a higher number.
pub open spec fn is_ranking(edges: Seq<Seq<int>>, rank: Seq<nat>) -> bool {
    &&& rank.len() == edges.len()
    &&& forall|a: int, j: int|
        0 <= a < edges.len() && 0 <= j < edges[a].len() ==> rank[a] < rank[#[trigger] edges[a][j]]
}

/// `a` stands in `order` before place `q`.
pub open spec fn stands_before(order: Seq<int>, a: int, q: int) -> bool {
    exists|p: int| 0 <= p < q && p < order.len() && #[trigger] order[p] == a
}

/// `order` lists nodes, none twice, so that whenever it lists a node it lists
/// every node with an edge to that node at an earlier place.
pub open spec fn is_topological(edges: Seq<Seq<int>>, order: Seq<int>) -> bool {
    &&& forall|p: int| 0 <= p < order.len() ==> 0 <= #[trigger] order[p] < edges.len()
    &&& forall|p: int, q: int| 0 <= p < q < order.len() ==> order[p] != order[q]
    &&& forall|a: int, j: int, q: int|
        0 <= a < edges.len() && 0 <= j < edges[a].len() && 0 <= q < order.len()
            && #[trigger] order[q] == #[trigger] edges[a][j] ==> stands_before(order, a, q)
}

/// An element that stands in a list is counted at least once.
proof fn lemma_count_in_positive(list: Seq<int>, j: int)
    requires
        0 <= j < list.len(),
    ensures
        count_in(list, list[j]) >= 1,
    decreases list.len(),
{
    if j > 0 {
        lemma_count_in_positive(list.drop_first(), j - 1);
    }
}

/// An element that is counted stands in the list.
proof fn lemma_count_in_witness(list: Seq<int>, v: int) -> (j: int)
    requires
        count_in(list, v) > 0,
    ensures
        0 <= j < list.len(),
        list[j] == v,
    decreases list.len(),
{
    if list[0] == v {
        0
    } else {
        lemma_count_in_witness(list.drop_first(), v) + 1
    }
}

/// Adding an element at the end of a list adds one to its count.
proof fn lemma_count_in_push(list: Seq<int>, b: int, v: int)
    ensures
        count_in(list.push(b), v) == count_in(list, v) + (if b == v {
            1nat
        } else {
            0nat
        }),
    decreases list.len(),
{
    if list.len() == 0 {
        assert(list.push(b).drop_first() =~= Seq::<int>::empty());
        assert(count_in(Seq::<int>::empty(), v) == 0);
    } else {
        assert(list.push(b).drop_first() =~= list.drop_first().push(b));
        lemma_count_in_push(list.drop_first(), b, v);
    }
}

/// The in-degree looks at the first `upto` lists alone.
proof fn lemma_in_degree_same(a: Seq<Seq<int>>, b: Seq<Seq<int>>, upto: int, v: int)
    requires
        upto <= a.len(),
        upto <= b.len(),
        forall|i: int| 0 <= i < upto ==> a[i] == b[i],
    ensures
        in_degree_upto(a, upto, v) == in_degree_upto(b, upto, v),
    decreases upto,
{
    if upto > 0 {
        lemma_in_degree_same(a, b, upto - 1, v);
    }
}

/// A new edge from `a` to `b` adds one to the in-degree of `b` and leaves
/// the in-degree of every other node as it was.
proof fn lemma_in_degree_add_edge(edges: Seq<Seq<int>>, a: int, b: int, upto: int, v: int)
    requires
        0 <= a < edges.len(),
        0 <= upto <= edges.len(),
    ensures
        in_degree_upto(edges.update(a, edges[a].push(b)), upto, v) == in_degree_upto(
            edges,
            upto,
            v,
        ) + (if a < upto && b == v {
            1nat
        } else {
            0nat
        }),
    decreases upto,
{
    if upto > 0 {
        lemma_in_degree_add_edge(edges, a, b, upto - 1, v);
        if a == upto - 1 {
            lemma_count_in_push(edges[a], b, v);
        }
    }
}

/// The in-degree is no more than the number of edges that the first `upto`
/// nodes have.
proof fn lemma_in_degree_bound(edges: Seq<Seq<int>>, upto: int, v: int, max: int)
    requires
        0 <= upto <= edges.len(),
        forall|i: int| 0 <= i < edges.len() ==> (#[trigger] edges[i]).len() <= max,
        0 <= max,
    ensures
        in_degree_upto(edges, upto, v) <= upto * max,
    decreases upto,
{
    if upto > 0 {
        lemma_in_degree_bound(edges, upto - 1, v, max);
        lemma_count_in_bound(edges[upto - 1], v);
        assert((upto - 1) * max + max == upto * max) by (nonlinear_arith);
    } else {
        assert(0 * max == 0);
    }
}

/// An element is counted no more often than the list is long.
proof fn lemma_count_in_bound(list: Seq<int>, v: int)
    ensures
        count_in(list, v) <= list.len(),
    decreases list.len(),
{
    if list.len() > 0 {
        lemma_count_in_bound(list.drop_first(), v);
    }
}

/// A node that no list names has no edge into it.
proof fn lemma_in_degree_zero(edges: Seq<Seq<int>>, upto: int, v: int)
    requires
        0 <= upto <= edges.len(),
        forall|a: int, j: int|
            0 <= a < edges.len() && 0 <= j < edges[a].len() ==> #[trigger] edges[a][j] != v,
    ensures
        in_degree_upto(edges, upto, v) == 0,
    decreases upto,
{
    if upto > 0 {
        lemma_in_degree_zero(edges, upto - 1, v);
        let list = edges[upto - 1];
        if count_in(list, v) > 0 {
            let j = lemma_count_in_witness(list, v);
            assert(edges[upto - 1][j] != v);
        }
    }
}

/// The number of edges into `v` from those of the first `upto` nodes that are
/// not marked.
pub open spec fn remaining(edges: Seq<Seq<int>>, done: Seq<bool>, upto: int, v: int) -> nat
    decreases upto,
{
    if upto <= 0 {
        0
    } else {
        remaining(edges, done, upto - 1, v) + (if done[upto - 1] {
            0nat
        } else {
            count_in(edges[upto - 1], v)
        })
    }
}

/// With no node marked, what remains is the in-degree.
proof fn lemma_remaining_start(edges: Seq<Seq<int>>, done: Seq<bool>, upto: int, v: int)
    requires
        0 <= upto <= edges.len(),
        done.len() == edges.len(),
        forall|u: int| 0 <= u < done.len() ==> !#[trigger] done[u],
    ensures
        remaining(edges, done, upto, v) == in_degree_upto(edges, upto, v),
    decreases upto,
{
    if upto > 0 {
        lemma_remaining_start(edges, done, upto - 1, v);
    }
}

/// Marking a node takes its edges out of what remains.
proof fn lemma_remaining_mark(edges: Seq<Seq<int>>, done: Seq<bool>, c: int, upto: int, v: int)
    requires
        0 <= upto <= edges.len(),
        done.len() == edges.len(),
        0 <= c < edges.len(),
        !done[c],
    ensures
        remaining(edges, done, upto, v) == remaining(edges, done.update(c, true), upto, v) + (
        if c < upto {
            count_in(edges[c], v)
        } else {
            0nat
        }),
    decreases upto,
{
    if upto > 0 {
        lemma_remaining_mark(edges, done, c, upto - 1, v);
    }
}

/// Where nothing remains, every node with an edge to `v` is marked.
proof fn lemma_remaining_zero(edges: Seq<Seq<int>>, done: Seq<bool>, upto: int, v: int)
    requires
        0 <= upto <= edges.len(),
        done.len() == edges.len(),
        remaining(edges, done, upto, v) == 0,
    ensures
        forall|u: int, j: int|
            0 <= u < upto && 0 <= j < edges[u].len() && #[trigger] edges[u][j] == v ==> done[u],
    decreases upto,
{
    if upto > 0 {
        lemma_remaining_zero(edges, done, upto - 1, v);
        assert forall|u: int, j: int|
            0 <= u < upto && 0 <= j < edges[u].len() && #[trigger] edges[u][j] == v implies done[u] by {
            if u == upto - 1 {
                lemma_count_in_positive(edges[u], j);
            }
        }
    }
}

/// Where something remains, some node that is not marked has an edge to `v`.
proof fn lemma_remaining_witness(edges: Seq<Seq<int>>, done: Seq<bool>, upto: int, v: int) -> (r: (
    int,
    int,
))
    requires
        0 <= upto <= edges.len(),
        done.len() == edges.len(),
        remaining(edges, done, upto, v) > 0,
    ensures
        0 <= r.0 < upto,
        !done[r.0],
        0 <= r.1 < edges[r.0].len(),
        edges[r.0][r.1] == v,
    decreases upto,
{
    if !done[upto - 1] && count_in(edges[upto - 1], v) > 0 {
        (upto - 1, lemma_count_in_witness(edges[upto - 1], v))
    } else {
        lemma_remaining_witness(edges, done, upto - 1, v)
    }
}

/// In a graph without a cycle, where every node that is not marked has an
/// edge from a node that is not marked, every node is marked.
proof fn lemma_no_cycle_no_rest(edges: Seq<Seq<int>>, done: Seq<bool>, rank: Seq<nat>, v: int)
    requires
        done.len() == edges.len(),
        is_ranking(edges, rank),
        edges_in_range(edges),
        forall|u: int|
            0 <= u < edges.len() && !#[trigger] done[u] ==> remaining(
                edges,
                done,
                edges.len() as int,
                u,
            ) > 0,
        0 <= v < edges.len(),
    ensures
        done[v],
    decreases rank[v],
{
    if !done[v] {
        let (u, j) = lemma_remaining_witness(edges, done, edges.len() as int, v);
        assert(rank[u] < rank[edges[u][j]]);
        lemma_no_cycle_no_rest(edges, done, rank, u);
    }
}

/// A list without repetition of numbers below `n` has at most `n` entries,
/// and with `n` entries it holds every number below `n`.
proof fn lemma_distinct_below(order: Seq<int>, n: int)
    requires
        0 <= n,
        forall|p: int| 0 <= p < order.len() ==> 0 <= #[trigger] order[p] < n,
        forall|p: int, q: int| 0 <= p < q < order.len() ==> order[p] != order[q],
    ensures
        order.len() <= n,
        order.len() == n ==> forall|v: int| 0 <= v < n ==> order.contains(v),
{
    assert(order.no_duplicates());
    order.unique_seq_to_set();
    vstd::set_lib::lemma_int_range(0, n);
    let all = vstd::set_lib::set_int_range(0, n);
    assert(order.to_set().subset_of(all)) by {
        assert forall|x: int| order.to_set().contains(x) implies all.contains(x) by {
            let p = choose|p: int| 0 <= p < order.len() && order[p] == x;
            assert(0 <= order[p] < n);
        }
    }
    vstd::set_lib::lemma_len_subset(order.to_set(), all);
    if order.len() == n {
        vstd::set_lib::lemma_subset_equality(order.to_set(), all);
        assert forall|v: int| 0 <= v < n implies order.contains(v) by {
            assert(all.contains(v));
            assert(order.to_set().contains(v));
        }
    }
}

/// An order without repetition that has as many places as there are
/// nodes lists every node.
pub proof fn lemma_full_order_lists_all(edges: Seq<Seq<int>>, order: Seq<int>)
    requires
        is_topological(edges, order),
        order.len() == edges.len(),
    ensures
        forall|v: int| 0 <= v < edges.len() ==> order.contains(v),
{
    lemma_distinct_below(order, edges.len() as int);
}

/// A topological order that lists every node shows that the graph has no
/// cycle.
pub proof fn lemma_full_order_acyclic(edges: Seq<Seq<int>>, order: Seq<int>)
    requires
        is_topological(edges, order),
        order.len() == edges.len(),
        edges_in_range(edges),
    ensures
        is_acyclic(edges),
{
    let n = edges.len() as int;
    lemma_distinct_below(order, n);
    let rank = Seq::new(edges.len(), |v: int| order.index_of(v) as nat);
    assert forall|a: int, j: int| 0 <= a < edges.len() && 0 <= j < edges[a].len() implies rank[a]
        < rank[#[trigger] edges[a][j]] by {
        let b = edges[a][j];
        assert(order.contains(a));
        assert(order.contains(b));
        let q = order.index_of(b);
        let pa = order.index_of(a);
        assert(order[q] == edges[a][j]);
        assert(stands_before(order, a, q));
        let p = choose|p: int| 0 <= p < q && p < order.len() && #[trigger] order[p] == a;
        if p < pa {
            assert(order[p] != order[pa]);
        } else if pa < p {
            assert(order[pa] != order[p]);
        }
    }
    assert(is_ranking(edges, rank));
}

/// What holds while the order is built: `q` is the order so far, `rank` gives
/// the place of each node in `q`, or -1, the nodes before place `lpos` are
/// those marked in `done`, a node stands in `q` exactly when its counter is
/// zero, and every node with an edge to a node in `q` stands in `q` before it.
spec fn order_inv(
    edges: Seq<Seq<int>>,
    q: Seq<int>,
    rank: Seq<int>,
    done: Seq<bool>,
    lpos: int,
    cur: Seq<u128>,
) -> bool {
    let n = edges.len();
    &&& rank.len() == n
    &&& done.len() == n
    &&& cur.len() == n
    &&& 0 <= lpos <= q.len()
    &&& forall|p: int| 0 <= p < q.len() ==> 0 <= #[trigger] q[p] < n && rank[q[p]] == p
    &&& forall|u: int|
        0 <= u < n ==> (#[trigger] rank[u] == -1 || (0 <= rank[u] < q.len() && q[rank[u]] == u))
    &&& forall|u: int| 0 <= u < n ==> (#[trigger] done[u] <==> 0 <= rank[u] < lpos)
    &&& forall|u: int| 0 <= u < n ==> (#[trigger] cur[u] == 0 <==> rank[u] >= 0)
    &&& forall|u: int, j: int|
        0 <= u < n && 0 <= j < edges[u].len() && rank[#[trigger] edges[u][j]] >= 0 ==> 0 <= rank[u]
            < rank[edges[u][j]]
}

/// The order that `order_inv` describes is topological.
proof fn lemma_order_topological(
    edges: Seq<Seq<int>>,
    q: Seq<int>,
    rank: Seq<int>,
    done: Seq<bool>,
    lpos: int,
    cur: Seq<u128>,
)
    requires
        order_inv(edges, q, rank, done, lpos, cur),
        edges_in_range(edges),
    ensures
        is_topological(edges, q),
        q.len() <= edges.len(),
{
    assert forall|p: int, r: int| 0 <= p < r < q.len() implies q[p] != q[r] by {
        assert(rank[q[p]] == p);
        assert(rank[q[r]] == r);
    }
    assert forall|a: int, j: int, r: int|
        0 <= a < edges.len() && 0 <= j < edges[a].len() && 0 <= r < q.len() && #[trigger] q[r]
            == #[trigger] edges[a][j] implies stands_before(q, a, r) by {
        assert(rank[q[r]] == r);
        assert(0 <= rank[a] < rank[edges[a][j]]);
        assert(q[rank[a]] == a);
    }
    lemma_distinct_below(q, edges.len() as int);
}

/// When the order is complete, it lists every node exactly if the graph has
/// no cycle.
proof fn lemma_order_complete(
    edges: Seq<Seq<int>>,
    q: Seq<int>,
    rank: Seq<int>,
    done: Seq<bool>,
    cur: Seq<u128>,
)
    requires
        order_inv(edges, q, rank, done, q.len() as int, cur),
        edges_in_range(edges),
        forall|v: int|
            0 <= v < edges.len() ==> #[trigger] cur[v] == remaining(
                edges,
                done,
                edges.len() as int,
                v,
            ),
    ensures
        q.len() == edges.len() <==> is_acyclic(edges),
{
    let n = edges.len() as int;
    lemma_order_topological(edges, q, rank, done, q.len() as int, cur);
    if q.len() == n {
        lemma_full_order_acyclic(edges, q);
    }
    if is_acyclic(edges) {
        let ranking = choose|ranking: Seq<nat>| is_ranking(edges, ranking);
        assert forall|u: int| 0 <= u < n && !#[trigger] done[u] implies remaining(
            edges,
            done,
            n,
            u,
        ) > 0 by {
            assert(rank[u] == -1);
            assert(cur[u] != 0);
        }
        assert forall|u: int| 0 <= u < n implies 0 <= #[trigger] rank[u] < q.len() by {
            lemma_no_cycle_no_rest(edges, done, ranking, u);
        }
        assert forall|u: int, w: int| 0 <= u < w < n implies rank[u] != rank[w] by {
            assert(q[rank[u]] == u);
            assert(q[rank[w]] == w);
        }
        lemma_distinct_below(rank, q.len() as int);
    }
}

/// The positions in a list, as integers.
pub open spec fn list_view(list: Seq<usize>) -> Seq<int> {
    Seq::new(list.len(), |j: int| list[j] as int)
}

/// The adjacency lists, as the model has them.
pub open spec fn edges_view(edges: Seq<Vec<usize>>) -> Seq<Seq<int>> {
    Seq::new(edges.len(), |a: int| list_view(edges[a]@))
}

/// A graph of dependencies between store path hashes.
pub struct DepGraph {
    nodes: HashIndex,
    edges: Vec<Vec<usize>>,
    inds: Vec<u128>,
}

impl View for DepGraph {
    type V = DepGraphView;

    closed spec fn view(&self) -> DepGraphView {
        DepGraphView { nodes: self.nodes@, edges: edges_view(self.edges@) }
    }
}

impl DepGraph {
    /// The invariant of the representation.
    pub closed spec fn wf(&self) -> bool {
        &&& self.nodes.wf()
        &&& self.edges@.len() == self.nodes@.len()
        &&& self.inds@.len() == self.nodes@.len()
        &&& edges_in_range(self@.edges)
        &&& forall|v: int|
            0 <= v < self.inds@.len() ==> #[trigger] self.inds@[v] == in_degree(self@.edges, v)
    }

    /// In a well-formed graph every node stands once, every node has its
    /// list of edges, and every edge goes to a node.
    pub proof fn lemma_wf(&self)
        requires
            self.wf(),
        ensures
            no_duplicates(self@.nodes),
            self@.edges.len() == self@.nodes.len(),
            edges_in_range(self@.edges),
    {
        self.nodes.lemma_no_duplicates();
    }

    /// The graph without nodes.
    pub fn new() -> (r: DepGraph)
        ensures
            r.wf(),
            r@.nodes.len() == 0,
            r@.edges.len() == 0,
    {
        let r = DepGraph { nodes: HashIndex::new(), edges: Vec::new(), inds: Vec::new() };
        assert(r@.edges =~= Seq::<Seq<int>>::empty());
        r
    }

    /// The number of nodes.
    pub fn len(&self) -> (n: usize)
        requires
            self.wf(),
        ensures
            n == self@.nodes.len(),
    {
        self.nodes.len()
    }

    /// The position of a node, if the graph holds it.
    pub fn position(&self, a: &StorePathHash) -> (r: Option<usize>)
        requires
            self.wf(),
        ensures
            match r {
                Some(i) => i < self@.nodes.len() && self@.nodes[i as int] == a@ && position(
                    self@.nodes,
                    a@,
                ) == Some(i as int),
                None => !self@.nodes.contains(a@) && position(self@.nodes, a@) is None,
            },
    {
        self.nodes.position(a)
    }

    /// The node at a position.
    pub fn node(&self, i: usize) -> (r: StorePathHash)
        requires
            self.wf(),
            i < self@.nodes.len(),
        ensures
            r@ == self@.nodes[i as int],
    {
        self.nodes.get(i)
    }

    /// The positions of the nodes in an order in which every node comes after
    /// all nodes that have an edge to it. A node on a cycle, or behind one,
    /// is left out; so the order lists every node exactly if the graph has
    /// no cycle.
    pub fn topo_order(&self) -> (order: Vec<usize>)
        requires
            self.wf(),
        ensures
            is_topological(self@.edges, list_view(order@)),
            order@.len() == self@.nodes.len() <==> is_acyclic(self@.edges),
    {
        let n = self.nodes.len();
        let ghost edges = self@.edges;
        let mut cur: Vec<u128> = Vec::new();
        let mut v: usize = 0;
        while v < n
            invariant
                self.wf(),
                n == self@.nodes.len(),
                v <= n,
                cur@ == self.inds@.subrange(0, v as int),
            decreases n - v,
        {
            cur.push(self.inds[v]);
            assert(cur@ =~= self.inds@.subrange(0, v + 1));
            v += 1;
        }
        assert(cur@ =~= self.inds@);
        let mut q: Vec<usize> = Vec::new();
        let ghost mut rank: Seq<int> = Seq::new(n as nat, |u: int| -1);
        let ghost mut done: Seq<bool> = Seq::new(n as nat, |u: int| false);
        v = 0;
        while v < n
            invariant
                self.wf(),
                n == self@.nodes.len(),
                v <= n,
                cur@ == self.inds@,
                rank.len() == n,
                forall|p: int|
                    0 <= p < q@.len() ==> 0 <= #[trigger] q@[p] < v && rank[q@[p] as int] == p,
                forall|u: int|
                    0 <= u < n ==> (#[trigger] rank[u] == -1 || (0 <= rank[u] < q@.len() && q@[rank[u]]
                        == u)),
                forall|u: int| 0 <= u < v ==> (#[trigger] cur@[u] == 0 <==> rank[u] >= 0),
                forall|u: int| v <= u < n ==> #[trigger] rank[u] == -1,
            decreases n - v,
        {
            if cur[v] == 0 {
                proof {
                    rank = rank.update(v as int, q@.len() as int);
                }
                q.push(v);
            }
            v += 1;
        }
        proof {
            assert forall|u: int, j: int|
                0 <= u < n && 0 <= j < edges[u].len() && rank[#[trigger] edges[u][j]] >= 0 implies 0
                    <= rank[u] < rank[edges[u][j]] by {
                let w = edges[u][j];
                assert(0 <= w < n);
                assert(cur@[w] == 0);
                assert(self.inds@[w] == in_degree(edges, w));
                lemma_remaining_start(edges, done, n as int, w);
                lemma_remaining_zero(edges, done, n as int, w);
                assert(done[u]);
            }
            assert forall|w: int| 0 <= w < n implies #[trigger] cur@[w] == remaining(
                edges,
                done,
                n as int,
                w,
            ) by {
                assert(self.inds@[w] == in_degree(edges, w));
                lemma_remaining_start(edges, done, n as int, w);
            }
            assert(order_inv(edges, list_view(q@), rank, done, 0, cur@));
        }
        let mut lpos: usize = 0;
        while lpos != q.len()
            invariant
                self.wf(),
                n == self@.nodes.len(),
                edges == self@.edges,
                order_inv(edges, list_view(q@), rank, done, lpos as int, cur@),
                forall|w: int|
                    0 <= w < n ==> #[trigger] cur@[w] == remaining(edges, done, n as int, w),
            decreases n - lpos,
        {
            proof {
                lemma_order_topological(edges, list_view(q@), rank, done, lpos as int, cur@);
            }
            let c = q[lpos];
            assert(list_view(q@)[lpos as int] == c);
            lpos += 1;
            let list = &self.edges[c];
            let ghost out = edges[c as int];
            assert(out == list_view(list@));
            proof {
                assert(rank[c as int] == lpos - 1);
                assert(!done[c as int]);
                assert forall|w: int| 0 <= w < n implies #[trigger] cur@[w] == remaining(
                    edges,
                    done.update(c as int, true),
                    n as int,
                    w,
                ) + count_in(out.subrange(0, out.len() as int), w) by {
                    lemma_remaining_mark(edges, done, c as int, n as int, w);
                    assert(out.subrange(0, out.len() as int) =~= out);
                }
                done = done.update(c as int, true);
            }
            let mut j: usize = 0;
            while j < list.len()
                invariant
                    self.wf(),
                    n == self@.nodes.len(),
                    edges == self@.edges,
                    c < n,
                    out == edges[c as int],
                    out == list_view(list@),
                    j <= list@.len(),
                    1 <= lpos <= q@.len(),
                    order_inv(edges, list_view(q@), rank, done, lpos as int, cur@),
                    forall|w: int|
                        0 <= w < n ==> #[trigger] cur@[w] == remaining(edges, done, n as int, w)
                            + count_in(out.subrange(j as int, out.len() as int), w),
                decreases list.len() - j,
            {
                let nxt = list[j];
                let ghost rest = out.subrange(j as int, out.len() as int);
                let ghost rest1 = out.subrange(j + 1, out.len() as int);
                let ghost before = cur@;
                proof {
                    assert(out[j as int] == nxt);
                    assert(0 <= edges[c as int][j as int] < n);
                    assert(rest[0] == nxt);
                    assert(rest.drop_first() =~= rest1);
                    assert(cur@[nxt as int] == remaining(edges, done, n as int, nxt as int)
                        + count_in(rest, nxt as int));
                }
                cur[nxt] = cur[nxt] - 1;
                proof {
                    assert forall|w: int| 0 <= w < n implies #[trigger] cur@[w] == remaining(
                        edges,
                        done,
                        n as int,
                        w,
                    ) + count_in(rest1, w) by {
                        assert(before[w] == remaining(edges, done, n as int, w) + count_in(
                            rest,
                            w,
                        ));
                    }
                    assert(rank[nxt as int] == -1) by {
                        assert(before[nxt as int] != 0);
                    }
                }
                if cur[nxt] == 0 {
                    let ghost old_rank = rank;
                    let ghost old_q = list_view(q@);
                    proof {
                        rank = rank.update(nxt as int, q@.len() as int);
                    }
                    q.push(nxt);
                    proof {
                        let new_q = list_view(q@);
                        assert(new_q =~= old_q.push(nxt as int));
                        lemma_remaining_zero(edges, done, n as int, nxt as int);
                        assert forall|u: int, k: int|
                            0 <= u < n && 0 <= k < edges[u].len() && rank[#[trigger] edges[u][k]]
                                >= 0 implies 0 <= rank[u] < rank[edges[u][k]] by {
                            let w = edges[u][k];
                            if w == nxt {
                                assert(done[u]);
                                assert(0 <= old_rank[u] < lpos);
                            } else {
                                assert(old_rank[w] >= 0);
                                assert(0 <= old_rank[u] < old_rank[w]);
                            }
                        }
                        assert forall|p: int| 0 <= p < new_q.len() implies 0 <= #[trigger] new_q[p]
                            < n && rank[new_q[p]] == p by {
                            if p < old_q.len() {
                                assert(old_q[p] == new_q[p]);
                                assert(old_rank[old_q[p]] == p);
                            }
                        }
                        assert forall|u: int| 0 <= u < n implies (#[trigger] rank[u] == -1 || (0
                            <= rank[u] < new_q.len() && new_q[rank[u]] == u)) by {
                            if u != nxt {
                                assert(old_rank[u] == -1 || (0 <= old_rank[u] < old_q.len()
                                    && old_q[old_rank[u]] == u));
                            }
                        }
                        assert forall|u: int| 0 <= u < n implies (#[trigger] done[u] <==> 0
                            <= rank[u] < lpos) by {
                            assert(done[u] <==> 0 <= old_rank[u] < lpos);
                        }
                        assert forall|u: int| 0 <= u < n implies (#[trigger] cur@[u] == 0
                            <==> rank[u] >= 0) by {
                            if u != nxt {
                                assert(before[u] == 0 <==> old_rank[u] >= 0);
                            }
                        }
                    }
                } else {
                    proof {
                        assert forall|u: int| 0 <= u < n implies (#[trigger] cur@[u] == 0
                            <==> rank[u] >= 0) by {
                            if u != nxt {
                                assert(before[u] == 0 <==> rank[u] >= 0);
                            }
                        }
                    }
                }
                j += 1;
            }
            proof {
                assert(out.subrange(list@.len() as int, out.len() as int) =~= Seq::<int>::empty());
                assert forall|w: int| 0 <= w < n implies #[trigger] cur@[w] == remaining(
                    edges,
                    done,
                    n as int,
                    w,
                ) by {
                    assert(count_in(Seq::<int>::empty(), w) == 0);
                }
            }
        }
        proof {
            lemma_order_topological(edges, list_view(q@), rank, done, lpos as int, cur@);
            lemma_order_complete(edges, list_view(q@), rank, done, cur@);
        }
        q
    }

    /// The nodes in an order in which every node comes after all nodes that
    /// depend on it, as `topo_order` gives it.
    pub fn topo_sort(self) -> (r: Vec<StorePathHash>)
        requires
            self.wf(),
        ensures
            exists|order: Seq<int>|
                {
                    &&& #[trigger] is_topological(self@.edges, order)
                    &&& order.len() == r@.len()
                    &&& forall|p: int| 0 <= p < order.len() ==> r@[p]@ == self@.nodes[order[p]]
                },
            r@.len() == self@.nodes.len() <==> is_acyclic(self@.edges),
    {
        let order = self.topo_order();
        let mut out: Vec<StorePathHash> = Vec::new();
        let mut p: usize = 0;
        while p < order.len()
            invariant
                self.wf(),
                p <= order@.len(),
                out@.len() == p,
                is_topological(self@.edges, list_view(order@)),
                forall|k: int| 0 <= k < p ==> out@[k]@ == self@.nodes[list_view(order@)[k]],
            decreases order.len() - p,
        {
            assert(0 <= list_view(order@)[p as int] < self@.edges.len());
            out.push(self.nodes.get(order[p]));
            p += 1;
        }
        out
    }

    /// Adds the node `a`, which the graph does not hold yet, without edges.
    pub fn add_node(&mut self, a: StorePathHash)
        requires
            old(self).wf(),
            !old(self)@.nodes.contains(a@),
        ensures
            final(self).wf(),
            final(self)@.nodes == old(self)@.nodes.push(a@),
            final(self)@.edges == old(self)@.edges.push(Seq::empty()),
    {
        let ghost old_edges = self@.edges;
        self.nodes.push(a);
        self.edges.push(Vec::new());
        self.inds.push(0);
        proof {
            let n = old_edges.len() as int;
            assert(self@.edges =~= old_edges.push(Seq::empty())) by {
                let want = old_edges.push(Seq::<int>::empty());
                assert forall|u: int| 0 <= u < want.len() implies self@.edges[u] =~= want[u] by {
                    if u < n {
                        assert(self.edges@[u] == old(self).edges@[u]);
                    }
                }
            }
            assert(count_in(Seq::<int>::empty(), n) == 0);
            assert forall|v: int| 0 <= v < self.inds@.len() implies #[trigger] self.inds@[v]
                == in_degree(self@.edges, v) by {
                lemma_in_degree_same(self@.edges, old_edges, n, v);
                assert(count_in(self@.edges[n], v) == 0);
                if v == n {
                    assert forall|b: int, j: int|
                        0 <= b < old_edges.len() && 0 <= j < old_edges[b].len()
                            implies #[trigger] old_edges[b][j] != v by {
                        assert(0 <= old_edges[b][j] < old_edges.len());
                    }
                    lemma_in_degree_zero(old_edges, n, v);
                } else {
                    assert(self.inds@[v] == old(self).inds@[v]);
                }
            }
            assert(edges_in_range(self@.edges)) by {
                assert forall|b: int, j: int|
                    0 <= b < self@.edges.len() && 0 <= j < self@.edges[b].len() implies 0
                        <= #[trigger] self@.edges[b][j] < self@.edges.len() by {
                    if b < n {
                        assert(self@.edges[b] == old_edges[b]);
                        assert(0 <= old_edges[b][j] < old_edges.len());
                    }
                }
            }
        }
    }

    /// Records that `a` depends on `b`; both are nodes of the graph.
    pub fn add_dep(&mut self, a: StorePathHash, b: StorePathHash)
        requires
            old(self).wf(),
            old(self)@.nodes.contains(a@),
            old(self)@.nodes.contains(b@),
        ensures
            final(self).wf(),
            final(self)@ == add_edge(old(self)@, a@, b@),
    {
        let i = match self.nodes.position(&a) {
            Some(i) => i,
            None => {
                return ;
            },
        };
        let k = match self.nodes.position(&b) {
            Some(k) => k,
            None => {
                return ;
            },
        };
        let ghost old_edges = self@.edges;
        let n = self.edges.len();
        proof {
            assert forall|u: int| 0 <= u < old_edges.len() implies (#[trigger] old_edges[u]).len()
                <= usize::MAX by {
                assert(old_edges[u].len() == self.edges@[u].len());
            }
            lemma_in_degree_bound(old_edges, n as int, k as int, usize::MAX as int);
            assert(n * usize::MAX <= 0xffff_ffff_ffff_ffff * 0xffff_ffff_ffff_ffff)
                by (nonlinear_arith)
                requires
                    0 <= n <= 0xffff_ffff_ffff_ffff,
                    0 <= usize::MAX <= 0xffff_ffff_ffff_ffff,
            ;
        }
        self.edges[i].push(k);
        self.inds[k] = self.inds[k] + 1;
        proof {
            let new_edges = old_edges.update(i as int, old_edges[i as int].push(k as int));
            assert(self@.edges =~= new_edges) by {
                assert forall|u: int| 0 <= u < n implies self@.edges[u] =~= new_edges[u] by {
                    if u == i {
                        assert(list_view(self.edges@[u]@) =~= list_view(old(self).edges@[u]@).push(
                            k as int,
                        ));
                    } else {
                        assert(self.edges@[u] == old(self).edges@[u]);
                    }
                }
            }
            assert forall|v: int| 0 <= v < self.inds@.len() implies #[trigger] self.inds@[v]
                == in_degree(self@.edges, v) by {
                lemma_in_degree_add_edge(old_edges, i as int, k as int, n as int, v);
                assert(old(self).inds@[v] == in_degree(old_edges, v));
            }
            assert(edges_in_range(self@.edges)) by {
                assert forall|u: int, j: int|
                    0 <= u < self@.edges.len() && 0 <= j < self@.edges[u].len() implies 0
                        <= #[trigger] self@.edges[u][j] < self@.edges.len() by {
                    if u == i && j == old_edges[u].len() {
                    } else {
                        assert(self@.edges[u][j] == old_edges[u][j]);
                    }
                }
            }
        }
    }
}

} // verus!
