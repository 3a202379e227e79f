//! The recursive crawl of the metadata of a set of store paths.
//!
//! The crawl is a state machine. The caller fetches the narinfo texts that
//! the machine asks for, at most `MAX_CONCURRENT_FETCH` at a time, and hands
//! each back; the machine reads them, records what refers to what, and asks
//! for what is new. When nothing is awaited any more, the artifacts are
//! committed to the catalog, every artifact after those it refers to.

use vstd::prelude::*;
use vstd::string::*;

use crate::database::model::{
    is_store_path, path_hash, InvalidStorePath, Nar,
    NarStatus, NarView, ParseError, StorePathHash,
};
use crate::database::nar_info::{parse_nar_info_text, InvalidNarInfo};
use crate::database::{
    catalog_inv, checked_ref_hashes, has_room, hash_texts, insert_nar, lemma_resolve_all,
    nar_id_of_hash, ref_hashes, refs_valid, row_hashes, select_nar_id, Database, DatabaseView,
    NarRowView,
};
use crate::hash_index::{
    lemma_position, lemma_position_none, lemma_position_push, no_duplicates, position,
};
use crate::update::dep_graph::{
    add_edge, edges_in_range, is_acyclic, is_topological, lemma_full_order_lists_all, list_view,
    stands_before, DepGraph, DepGraphView,
};
use crate::update::{Error, FetchCause};

verus! {

/// The largest number of narinfo texts that are fetched at a time.
pub const MAX_CONCURRENT_FETCH: usize = 128;

/// What is known of a store path that the crawl has met.
#[derive(Debug)]
pub enum NarState {
    /// Its narinfo is awaited.
    Fetching,
    /// Its narinfo was read.
    Fetched(Nar),
    /// The catalog holds it, under this id.
    Inserted(i64),
}

/// What a `NarState` holds.
pub enum NarStateView {
    Fetching,
    Fetched(NarView),
    Inserted(int),
}

impl View for NarState {
    type V = NarStateView;

    open spec fn view(&self) -> NarStateView {
        match self {
            NarState::Fetching => NarStateView::Fetching,
            NarState::Fetched(n) => NarStateView::Fetched(n@),
            NarState::Inserted(id) => NarStateView::Inserted(*id as int),
        }
    }
}

impl NarState {
    /// The id in the catalog, where the catalog holds the store path.
    pub fn as_inserted(&self) -> (r: Option<i64>)
        ensures
            match r {
                Some(id) => self@ == NarStateView::Inserted(id as int),
                None => !(self@ is Inserted),
            },
    {
        match self {
            NarState::Inserted(id) => Some(*id),
            _ => None,
        }
    }
}

/// What a crawl holds.
pub struct FetcherView {
    /// The address of the binary cache.
    pub cache_url: Seq<char>,
    /// The store paths met so far, by hash, and what refers to what.
    pub graph: DepGraphView,
    /// What is known of each store path, in the order of the nodes.
    pub states: Seq<NarStateView>,
    /// The hashes whose narinfo is still to ask for.
    pub todo: Seq<Seq<char>>,
    /// How many more narinfo texts may be asked for now.
    pub permits: nat,
    /// How many narinfo texts were wanted so far.
    pub total: nat,
    /// How many narinfo texts were read so far.
    pub finished: nat,
    /// The hashes of the store paths that the crawl started from.
    pub root_hashes: Seq<Seq<char>>,
}

/// The crawl after it has met the hash `h`: unchanged where it knows `h`;
/// else `h` is a new node, which the catalog holds already or whose narinfo
/// is now wanted.
pub open spec fn add_todo(f: FetcherView, d: DatabaseView, h: Seq<char>) -> FetcherView {
    if f.graph.nodes.contains(h) {
        f
    } else {
        let graph = DepGraphView {
            nodes: f.graph.nodes.push(h),
            edges: f.graph.edges.push(Seq::empty()),
        };
        match select_nar_id(d.nars, h) {
            Some(id) => FetcherView {
                graph,
                states: f.states.push(NarStateView::Inserted(id)),
                ..f
            },
            None => FetcherView {
                graph,
                states: f.states.push(NarStateView::Fetching),
                todo: f.todo.push(h),
                total: f.total + 1,
                ..f
            },
        }
    }
}

/// The crawl after it has met each of `hashes`, in order.
pub open spec fn add_todos(f: FetcherView, d: DatabaseView, hashes: Seq<Seq<char>>) -> FetcherView
    decreases hashes.len(),
{
    if hashes.len() == 0 {
        f
    } else {
        add_todo(add_todos(f, d, hashes.drop_last()), d, hashes.last())
    }
}

/// Meeting hashes leaves the roots of a crawl as they are.
pub proof fn lemma_add_todos_roots(f: FetcherView, d: DatabaseView, hashes: Seq<Seq<char>>)
    ensures
        add_todos(f, d, hashes).root_hashes == f.root_hashes,
        add_todos(f, d, hashes).cache_url == f.cache_url,
    decreases hashes.len(),
{
    if hashes.len() > 0 {
        lemma_add_todos_roots(f, d, hashes.drop_last());
    }
}

/// The crawl before it has met anything.
pub open spec fn empty_crawl(cache_url: Seq<char>, root_hashes: Seq<Seq<char>>) -> FetcherView {
    FetcherView {
        cache_url,
        graph: DepGraphView { nodes: Seq::empty(), edges: Seq::empty() },
        states: Seq::empty(),
        todo: Seq::empty(),
        permits: MAX_CONCURRENT_FETCH as nat,
        total: 0,
        finished: 0,
        root_hashes,
    }
}

/// The address of the narinfo of a hash in a binary cache.
pub open spec fn narinfo_url(cache_url: Seq<char>, hash: Seq<char>) -> Seq<char> {
    cache_url + "/"@ + hash + ".narinfo"@
}

/// The node `v` has an edge to the node with hash `h`.
pub open spec fn has_edge_to(g: DepGraphView, v: int, h: Seq<char>) -> bool {
    position(g.nodes, h) matches Some(w) && g.edges[v].contains(w)
}

/// The artifact `n` is that of node `v`, and the graph has an edge from `v`
/// to each store path, other than itself, that `n` refers to.
pub open spec fn is_linked(g: DepGraphView, v: int, n: NarView) -> bool {
    &&& is_store_path(n.store_path)
    &&& path_hash(n.store_path) == g.nodes[v]
    &&& refs_valid(n.references)
    &&& forall|k: int|
        0 <= k < ref_hashes(n.references).len() ==> #[trigger] ref_hashes(n.references)[k]
            == g.nodes[v] || has_edge_to(g, v, ref_hashes(n.references)[k])
}

/// How many of the first `upto` store paths have their narinfo read.
pub open spec fn count_fetched(states: Seq<NarStateView>, upto: int) -> nat
    decreases upto,
{
    if upto <= 0 {
        0
    } else {
        count_fetched(states, upto - 1) + (if states[upto - 1] is Fetched {
            1nat
        } else {
            0nat
        })
    }
}

/// Every root is a node of the graph.
pub open spec fn roots_known(f: FetcherView) -> bool {
    forall|i: int|
        0 <= i < f.root_hashes.len() ==> f.graph.nodes.contains(#[trigger] f.root_hashes[i])
}

/// How many of the first `upto` store paths await their narinfo.
pub open spec fn count_fetching(states: Seq<NarStateView>, upto: int) -> nat
    decreases upto,
{
    if upto <= 0 {
        0
    } else {
        count_fetching(states, upto - 1) + (if states[upto - 1] is Fetching {
            1nat
        } else {
            0nat
        })
    }
}

/// The counters count: the narinfo texts that were read are those that the
/// states hold, and those that were wanted are those that were read and
/// those that are awaited.
pub open spec fn counts_inv(f: FetcherView) -> bool {
    &&& f.total <= f.states.len()
    &&& f.finished == count_fetched(f.states, f.states.len() as int)
    &&& f.total == f.finished + count_fetching(f.states, f.states.len() as int)
}

/// What holds of every crawl over a catalog: the graph is well formed, each
/// node has its state, a node that counts as inserted is held by the
/// catalog under its id, and an artifact that was read is linked to what it
/// refers to.
pub open spec fn crawl_inv(f: FetcherView, d: DatabaseView) -> bool {
    &&& no_duplicates(f.graph.nodes)
    &&& f.graph.edges.len() == f.graph.nodes.len()
    &&& edges_in_range(f.graph.edges)
    &&& f.states.len() == f.graph.nodes.len()
    &&& f.permits <= MAX_CONCURRENT_FETCH
    &&& counts_inv(f)
    &&& forall|v: int|
        0 <= v < f.states.len() ==> (#[trigger] f.states[v] matches NarStateView::Inserted(id)
            ==> nar_id_of_hash(d.nars, f.graph.nodes[v]) == Some(id))
    &&& forall|v: int|
        0 <= v < f.states.len() ==> (#[trigger] f.states[v] matches NarStateView::Fetched(n)
            ==> is_linked(f.graph, v, n))
}

/// The counts look at the first `upto` states alone.
proof fn lemma_count_same(a: Seq<NarStateView>, b: Seq<NarStateView>, upto: int)
    requires
        upto <= a.len(),
        upto <= b.len(),
        forall|i: int| 0 <= i < upto ==> a[i] == b[i],
    ensures
        count_fetched(a, upto) == count_fetched(b, upto),
        count_fetching(a, upto) == count_fetching(b, upto),
    decreases upto,
{
    if upto > 0 {
        lemma_count_same(a, b, upto - 1);
    }
}

/// No narinfo is awaited exactly where none is counted as awaited.
pub proof fn lemma_none_awaited(a: Seq<NarStateView>, upto: int)
    requires
        0 <= upto <= a.len(),
    ensures
        count_fetching(a, upto) == 0 <==> forall|v: int|
            0 <= v < upto ==> !(#[trigger] a[v] is Fetching),
    decreases upto,
{
    if upto > 0 {
        lemma_none_awaited(a, upto - 1);
        if count_fetching(a, upto) == 0 {
            assert forall|v: int| 0 <= v < upto implies !(#[trigger] a[v] is Fetching) by {
                if v < upto - 1 {
                }
            }
        }
        if forall|v: int| 0 <= v < upto ==> !(#[trigger] a[v] is Fetching) {
            assert(!(a[upto - 1] is Fetching));
            assert forall|v: int| 0 <= v < upto - 1 implies !(#[trigger] a[v] is Fetching) by {}
        }
    }
}

/// No more narinfo texts are read than store paths are known.
proof fn lemma_count_bound(a: Seq<NarStateView>, upto: int)
    requires
        0 <= upto <= a.len(),
    ensures
        count_fetched(a, upto) <= upto,
    decreases upto,
{
    if upto > 0 {
        lemma_count_bound(a, upto - 1);
    }
}

/// A narinfo that was awaited and is read counts as read, and as awaited
/// no more.
proof fn lemma_count_update(a: Seq<NarStateView>, v: int, n: NarView, upto: int)
    requires
        0 <= v < a.len(),
        0 <= upto <= a.len(),
        a[v] is Fetching,
    ensures
        count_fetched(a.update(v, NarStateView::Fetched(n)), upto) == count_fetched(a, upto) + (
        if v < upto {
            1nat
        } else {
            0nat
        }),
        count_fetching(a.update(v, NarStateView::Fetched(n)), upto) + (if v < upto {
            1nat
        } else {
            0nat
        }) == count_fetching(a, upto),
    decreases upto,
{
    if upto > 0 {
        lemma_count_update(a, v, n, upto - 1);
    }
}

/// Meeting a hash keeps what holds of a crawl.
pub proof fn lemma_add_todo(f: FetcherView, d: DatabaseView, h: Seq<char>)
    requires
        crawl_inv(f, d),
    ensures
        crawl_inv(add_todo(f, d, h), d),
        add_todo(f, d, h).graph.nodes.contains(h),
        forall|x: Seq<char>|
            f.graph.nodes.contains(x) ==> #[trigger] add_todo(f, d, h).graph.nodes.contains(x),
        roots_known(f) ==> roots_known(add_todo(f, d, h)),
        add_todo(f, d, h).root_hashes == f.root_hashes,
        f.states.len() <= add_todo(f, d, h).states.len(),
        forall|v: int|
            0 <= v < f.states.len() ==> add_todo(f, d, h).states[v] == f.states[v] && add_todo(
                f,
                d,
                h,
            ).graph.nodes[v] == #[trigger] f.graph.nodes[v],
{
    let g = add_todo(f, d, h);
    if !f.graph.nodes.contains(h) {
        let n = f.states.len() as int;
        assert(g.graph.nodes[n] == h);
        assert forall|x: Seq<char>| f.graph.nodes.contains(x) implies #[trigger] g.graph.nodes.contains(
            x,
        ) by {
            let i = choose|i: int| 0 <= i < f.graph.nodes.len() && f.graph.nodes[i] == x;
            assert(g.graph.nodes[i] == x);
        }
        lemma_position_push(f.graph.nodes, h, h);
        assert(edges_in_range(g.graph.edges)) by {
            assert forall|a: int, j: int|
                0 <= a < g.graph.edges.len() && 0 <= j < g.graph.edges[a].len() implies 0
                    <= #[trigger] g.graph.edges[a][j] < g.graph.edges.len() by {
                if a < n {
                    assert(g.graph.edges[a] == f.graph.edges[a]);
                    assert(0 <= f.graph.edges[a][j] < f.graph.edges.len());
                }
            }
        }
        lemma_count_same(g.states, f.states, n);
        assert forall|v: int| 0 <= v < g.states.len() implies (#[trigger] g.states[v] matches NarStateView::Fetched(
            m,
        ) ==> is_linked(g.graph, v, m)) by {
            if v < n {
                assert(g.states[v] == f.states[v]);
                if let NarStateView::Fetched(m) = f.states[v] {
                    assert(is_linked(f.graph, v, m));
                    assert(g.graph.nodes[v] == f.graph.nodes[v]);
                    assert forall|k: int| 0 <= k < ref_hashes(m.references).len() implies #[trigger] ref_hashes(
                        m.references,
                    )[k] == g.graph.nodes[v] || has_edge_to(
                        g.graph,
                        v,
                        ref_hashes(m.references)[k],
                    ) by {
                        let x = ref_hashes(m.references)[k];
                        if x != f.graph.nodes[v] {
                            assert(has_edge_to(f.graph, v, x));
                            lemma_position_none(f.graph.nodes, x);
                            lemma_position_push(f.graph.nodes, h, x);
                            assert(g.graph.edges[v] == f.graph.edges[v]);
                        }
                    }
                }
            }
        }
        assert forall|v: int| 0 <= v < g.states.len() implies (#[trigger] g.states[v] matches NarStateView::Inserted(
            id,
        ) ==> nar_id_of_hash(d.nars, g.graph.nodes[v]) == Some(id)) by {
            if v < n {
                assert(g.states[v] == f.states[v]);
                assert(g.graph.nodes[v] == f.graph.nodes[v]);
            }
        }
    }
}

/// A new edge between nodes keeps what holds of a crawl.
pub proof fn lemma_add_edge(f: FetcherView, d: DatabaseView, a: Seq<char>, b: Seq<char>)
    requires
        crawl_inv(f, d),
        f.graph.nodes.contains(a),
        f.graph.nodes.contains(b),
    ensures
        crawl_inv(FetcherView { graph: add_edge(f.graph, a, b), ..f }, d),
        has_edge_to(add_edge(f.graph, a, b), position(f.graph.nodes, a)->0, b),
        forall|v: int, x: Seq<char>|
            0 <= v < f.states.len() && #[trigger] has_edge_to(f.graph, v, x) ==> has_edge_to(
                add_edge(f.graph, a, b),
                v,
                x,
            ),
{
    let g = FetcherView { graph: add_edge(f.graph, a, b), ..f };
    lemma_position_none(f.graph.nodes, a);
    lemma_position_none(f.graph.nodes, b);
    let i = position(f.graph.nodes, a)->0;
    let k = position(f.graph.nodes, b)->0;
    let n = f.states.len() as int;
    assert(g.graph.edges[i] == f.graph.edges[i].push(k));
    assert(g.graph.edges[i][f.graph.edges[i].len() as int] == k);
    assert(g.graph.edges[i].contains(k));
    assert(edges_in_range(g.graph.edges)) by {
        assert forall|u: int, j: int|
            0 <= u < g.graph.edges.len() && 0 <= j < g.graph.edges[u].len() implies 0
                <= #[trigger] g.graph.edges[u][j] < g.graph.edges.len() by {
            if u == i && j == f.graph.edges[i].len() {
            } else {
                assert(g.graph.edges[u][j] == f.graph.edges[u][j]);
            }
        }
    }
    assert forall|v: int, x: Seq<char>|
        0 <= v < f.states.len() && #[trigger] has_edge_to(f.graph, v, x) implies has_edge_to(
        g.graph,
        v,
        x,
    ) by {
        let w = position(f.graph.nodes, x)->0;
        let j = choose|j: int| 0 <= j < f.graph.edges[v].len() && f.graph.edges[v][j] == w;
        assert(g.graph.edges[v][j] == w);
    }
    assert forall|v: int| 0 <= v < g.states.len() implies (#[trigger] g.states[v] matches NarStateView::Fetched(
        m,
    ) ==> is_linked(g.graph, v, m)) by {
        if let NarStateView::Fetched(m) = f.states[v] {
            assert(is_linked(f.graph, v, m));
            assert forall|k2: int| 0 <= k2 < ref_hashes(m.references).len() implies #[trigger] ref_hashes(
                m.references,
            )[k2] == g.graph.nodes[v] || has_edge_to(g.graph, v, ref_hashes(m.references)[k2]) by {
                let x = ref_hashes(m.references)[k2];
                if x != f.graph.nodes[v] {
                    assert(has_edge_to(f.graph, v, x));
                }
            }
        }
    }
}

/// The crawl after the node `cur` was found to refer to the hash `h`: a
/// reference to itself changes nothing; any other hash is met, and the graph
/// gets an edge from `cur` to it.
pub open spec fn link_ref(f: FetcherView, d: DatabaseView, cur: Seq<char>, h: Seq<char>) -> FetcherView {
    if h == cur {
        f
    } else {
        let g = add_todo(f, d, h);
        FetcherView { graph: add_edge(g.graph, cur, h), ..g }
    }
}

/// The crawl after the node `cur` was found to refer to each of `hashes`,
/// in order.
pub open spec fn link_refs(
    f: FetcherView,
    d: DatabaseView,
    cur: Seq<char>,
    hashes: Seq<Seq<char>>,
) -> FetcherView
    decreases hashes.len(),
{
    if hashes.len() == 0 {
        f
    } else {
        link_ref(link_refs(f, d, cur, hashes.drop_last()), d, cur, hashes.last())
    }
}

/// The crawl after the artifact `n`, which was awaited, was read: what it
/// refers to is met and linked, and its node holds it.
pub open spec fn record_nar(f: FetcherView, d: DatabaseView, n: NarView) -> FetcherView {
    let cur = path_hash(n.store_path);
    let g = link_refs(f, d, cur, ref_hashes(n.references));
    FetcherView {
        states: g.states.update(position(f.graph.nodes, cur)->0, NarStateView::Fetched(n)),
        finished: g.finished + 1,
        ..g
    }
}

/// Why a text that came for a hash is not taken.
#[derive(Debug, Clone, Copy, PartialEq, Eq, Structural)]
pub enum Rejection {
    /// The text is no narinfo.
    NoNarInfo(InvalidNarInfo),
    /// The narinfo is that of another store path.
    UnexpectedStorePath,
    /// No narinfo is awaited for the hash.
    NotAwaited,
    /// A reference of the narinfo gives no store path.
    InvalidReference,
}

/// The artifact that the text `text`, which came for the hash `hash`, holds;
/// or why the text is not taken. The text must be a narinfo, of the store
/// path with that hash; the narinfo of that hash must be awaited; and every
/// reference must give a store path.
pub open spec fn accepted(f: FetcherView, hash: Seq<char>, text: Seq<char>) -> Result<
    NarView,
    Rejection,
> {
    match parse_nar_info_text(text) {
        Err(e) => Err(Rejection::NoNarInfo(e)),
        Ok(n) => if path_hash(n.store_path) != hash {
            Err(Rejection::UnexpectedStorePath)
        } else if !(position(f.graph.nodes, hash) matches Some(v) && f.states[v]
            == NarStateView::Fetching) {
            Err(Rejection::NotAwaited)
        } else if !refs_valid(n.references) {
            Err(Rejection::InvalidReference)
        } else {
            Ok(n)
        },
    }
}

/// The rejection that a cause stands for; none for a failure of the
/// transport.
pub open spec fn rejection_of(cause: FetchCause) -> Option<Rejection> {
    match cause {
        FetchCause::Transport(_) => None,
        FetchCause::Parse(ParseError::InvalidNarInfo(e)) => Some(Rejection::NoNarInfo(e)),
        FetchCause::Parse(ParseError::InvalidStorePath(_)) => Some(Rejection::InvalidReference),
        FetchCause::UnexpectedStorePath => Some(Rejection::UnexpectedStorePath),
        FetchCause::NotAwaited => Some(Rejection::NotAwaited),
    }
}

/// The crawl with one more permit, up to `MAX_CONCURRENT_FETCH`.
pub open spec fn release(f: FetcherView) -> FetcherView {
    FetcherView {
        permits: if f.permits < MAX_CONCURRENT_FETCH {
            f.permits + 1
        } else {
            f.permits
        },
        ..f
    }
}

/// Row `i` of the catalog has an edge for each reference in `references`,
/// in order: each edge goes to the row that holds the hash of the reference,
/// and none goes to a later row.
pub open spec fn is_fully_linked(nars: Seq<NarRowView>, i: int, references: Seq<char>) -> bool {
    let hashes = ref_hashes(references);
    &&& nars[i].refs.len() == hashes.len()
    &&& forall|k: int|
        0 <= k < hashes.len() ==> {
            &&& 1 <= #[trigger] nars[i].refs[k] <= i + 1
            &&& path_hash(nars[nars[i].refs[k] - 1].store_path) == hashes[k]
        }
}

/// The catalog `after` holds the rows and roots of `before` unchanged, and
/// after them only rows that are pending.
pub open spec fn extends(before: DatabaseView, after: DatabaseView) -> bool {
    &&& after.roots == before.roots
    &&& before.nars.len() <= after.nars.len()
    &&& forall|i: int| 0 <= i < before.nars.len() ==> #[trigger] after.nars[i] == before.nars[i]
    &&& forall|i: int|
        before.nars.len() <= i < after.nars.len() ==> (#[trigger] after.nars[i]).status
            == NarStatus::Pending
}

/// The catalog `after` holds the artifact `n`; and where its row is not one
/// of `before`, the row has the metadata of `n` and an edge for each of its
/// references, none to a later row.
pub open spec fn is_committed(before: DatabaseView, after: DatabaseView, n: NarView) -> bool {
    nar_id_of_hash(after.nars, path_hash(n.store_path)) matches Some(id) && (id
        > before.nars.len() ==> {
        &&& after.nars[id - 1].meta == n.meta
        &&& after.nars[id - 1].store_path == n.store_path
        &&& is_fully_linked(after.nars, id - 1, n.references)
    })
}

/// Row `i` is the row of the artifact that the state holds: it has its store
/// path and metadata, and an edge for each of its references.
pub open spec fn is_row_of(state: NarStateView, nars: Seq<NarRowView>, i: int) -> bool {
    match state {
        NarStateView::Fetched(n) => {
            &&& nars[i].store_path == n.store_path
            &&& nars[i].meta == n.meta
            &&& is_fully_linked(nars, i, n.references)
        },
        _ => false,
    }
}

/// Row `i` is the row of an artifact that the crawl has read.
pub open spec fn is_row_of_read(states: Seq<NarStateView>, nars: Seq<NarRowView>, i: int) -> bool {
    exists|v: int| 0 <= v < states.len() && is_row_of(#[trigger] states[v], nars, i)
}

/// A row stays the row of the artifact it was when the catalog grows.
pub proof fn lemma_row_stays(
    state: NarStateView,
    before: Seq<NarRowView>,
    after: Seq<NarRowView>,
    i: int,
)
    requires
        is_row_of(state, before, i),
        0 <= i < before.len() <= after.len(),
        forall|k: int| 0 <= k < before.len() ==> #[trigger] after[k] == before[k],
    ensures
        is_row_of(state, after, i),
{
    let n = state->Fetched_0;
    let hashes = ref_hashes(n.references);
    assert(after[i] == before[i]);
    assert forall|k: int| 0 <= k < hashes.len() implies {
        &&& 1 <= #[trigger] after[i].refs[k] <= i + 1
        &&& path_hash(after[after[i].refs[k] - 1].store_path) == hashes[k]
    } by {
        let r = before[i].refs[k];
        assert(1 <= r <= i + 1);
        assert(after[r - 1] == before[r - 1]);
    }
}

/// The row is that of a node that counts as inserted.
spec fn row_has_node(nodes: Seq<Seq<char>>, states: Seq<NarStateView>, row: NarRowView) -> bool {
    exists|u: int|
        0 <= u < states.len() && states[u] is Inserted && #[trigger] nodes[u] == path_hash(
            row.store_path,
        )
}

/// The catalog holds every artifact that the crawl has read.
pub open spec fn all_held(f: FetcherView, d: DatabaseView) -> bool {
    forall|v: int|
        0 <= v < f.states.len() ==> (#[trigger] f.states[v] matches NarStateView::Fetched(n)
            ==> position(row_hashes(d.nars), path_hash(n.store_path)) is Some)
}

/// Inserting an artifact that the catalog lacks, all of whose references the
/// catalog holds unless they are the artifact itself, adds a row that is
/// fully linked, and leaves every other row and id as it was.
pub proof fn lemma_insert_linked(d: DatabaseView, n: NarView)
    requires
        catalog_inv(d),
        is_store_path(n.store_path),
        position(row_hashes(d.nars), path_hash(n.store_path)) is None,
        forall|k: int|
            0 <= k < ref_hashes(n.references).len() ==> #[trigger] ref_hashes(n.references)[k]
                == path_hash(n.store_path) || position(
                row_hashes(d.nars),
                ref_hashes(n.references)[k],
            ) is Some,
    ensures
        ({
            let after = insert_nar(d, NarStatus::Pending, n);
            let len = d.nars.len() as int;
            &&& after.roots == d.roots
            &&& after.nars.len() == len + 1
            &&& forall|i: int| 0 <= i < len ==> #[trigger] after.nars[i] == d.nars[i]
            &&& after.nars[len].status == NarStatus::Pending
            &&& after.nars[len].meta == n.meta
            &&& after.nars[len].store_path == n.store_path
            &&& nar_id_of_hash(after.nars, path_hash(n.store_path)) == Some(len + 1)
            &&& is_fully_linked(after.nars, len, n.references)
            &&& forall|x: Seq<char>|
                position(row_hashes(d.nars), x) is Some ==> #[trigger] nar_id_of_hash(after.nars, x)
                    == nar_id_of_hash(d.nars, x)
        }),
{
    let own = path_hash(n.store_path);
    let after = insert_nar(d, NarStatus::Pending, n);
    let len = d.nars.len() as int;
    let keys = row_hashes(d.nars);
    let keys1 = row_hashes(after.nars);
    let hashes = ref_hashes(n.references);
    lemma_position_none(keys, own);
    assert(keys1 =~= keys.push(own));
    let row0 = NarRowView {
        status: NarStatus::Pending,
        store_path: n.store_path,
        meta: n.meta,
        refs: Seq::empty(),
    };
    assert(row_hashes(d.nars.push(row0)) =~= keys1);
    lemma_position_push(keys, own, own);
    assert forall|k: int| 0 <= k < hashes.len() implies position(keys1, #[trigger] hashes[k]) is Some by {
        let x = hashes[k];
        if x != own {
            lemma_position_none(keys, x);
            lemma_position_push(keys, own, x);
        }
    }
    lemma_resolve_all(keys1, hashes);
    assert forall|k: int| 0 <= k < hashes.len() implies {
        &&& 1 <= #[trigger] after.nars[len].refs[k] <= len + 1
        &&& path_hash(after.nars[after.nars[len].refs[k] - 1].store_path) == hashes[k]
    } by {
        lemma_position_none(keys1, hashes[k]);
        let i = position(keys1, hashes[k])->0;
        assert(keys1[i] == hashes[k]);
    }
    assert forall|x: Seq<char>| position(keys, x) is Some implies #[trigger] nar_id_of_hash(
        after.nars,
        x,
    ) == nar_id_of_hash(d.nars, x) by {
        lemma_position_none(keys, x);
        lemma_position_push(keys, own, x);
    }
}

/// What was committed stays committed when the catalog grows.
pub proof fn lemma_committed_stays(
    before: DatabaseView,
    d: DatabaseView,
    after: DatabaseView,
    n: NarView,
)
    requires
        is_committed(before, d, n),
        catalog_inv(d),
        d.nars.len() <= after.nars.len(),
        forall|i: int| 0 <= i < d.nars.len() ==> #[trigger] after.nars[i] == d.nars[i],
        nar_id_of_hash(after.nars, path_hash(n.store_path)) == nar_id_of_hash(
            d.nars,
            path_hash(n.store_path),
        ),
    ensures
        is_committed(before, after, n),
{
    let id = nar_id_of_hash(d.nars, path_hash(n.store_path))->0;
    lemma_position_none(row_hashes(d.nars), path_hash(n.store_path));
    if id > before.nars.len() {
        let hashes = ref_hashes(n.references);
        assert(after.nars[id - 1] == d.nars[id - 1]);
        assert forall|k: int| 0 <= k < hashes.len() implies {
            &&& 1 <= #[trigger] after.nars[id - 1].refs[k] <= id
            &&& path_hash(after.nars[after.nars[id - 1].refs[k] - 1].store_path) == hashes[k]
        } by {
            let r = d.nars[id - 1].refs[k];
            assert(1 <= r <= id);
            assert(after.nars[r - 1] == d.nars[r - 1]);
        }
    }
}

/// Every store path that the crawl has met is among `known`.
pub open spec fn nodes_within(f: FetcherView, known: Seq<Seq<char>>) -> bool {
    forall|v: int| 0 <= v < f.graph.nodes.len() ==> known.contains(#[trigger] f.graph.nodes[v])
}

/// A crawl that meets a hash among `known` stays within `known`.
pub proof fn lemma_add_todo_within(
    f: FetcherView,
    d: DatabaseView,
    h: Seq<char>,
    known: Seq<Seq<char>>,
)
    requires
        nodes_within(f, known),
        known.contains(h),
    ensures
        nodes_within(add_todo(f, d, h), known),
{
    let g = add_todo(f, d, h);
    assert forall|v: int| 0 <= v < g.graph.nodes.len() implies known.contains(
        #[trigger] g.graph.nodes[v],
    ) by {
        if v < f.graph.nodes.len() {
            assert(g.graph.nodes[v] == f.graph.nodes[v]);
        }
    }
}

/// A crawl that starts from roots among `known` is within `known`.
pub proof fn lemma_add_todos_within(
    f: FetcherView,
    d: DatabaseView,
    hashes: Seq<Seq<char>>,
    known: Seq<Seq<char>>,
)
    requires
        nodes_within(f, known),
        forall|k: int| 0 <= k < hashes.len() ==> known.contains(#[trigger] hashes[k]),
    ensures
        nodes_within(add_todos(f, d, hashes), known),
    decreases hashes.len(),
{
    if hashes.len() > 0 {
        let rest = hashes.drop_last();
        assert forall|k: int| 0 <= k < rest.len() implies known.contains(#[trigger] rest[k]) by {
            assert(rest[k] == hashes[k]);
        }
        lemma_add_todos_within(f, d, rest, known);
        assert(known.contains(hashes[hashes.len() - 1]));
        lemma_add_todo_within(add_todos(f, d, rest), d, hashes.last(), known);
    }
}

/// A crawl that links references among `known` stays within `known`.
pub proof fn lemma_link_refs_within(
    f: FetcherView,
    d: DatabaseView,
    cur: Seq<char>,
    hashes: Seq<Seq<char>>,
    known: Seq<Seq<char>>,
)
    requires
        nodes_within(f, known),
        forall|k: int| 0 <= k < hashes.len() ==> known.contains(#[trigger] hashes[k]),
    ensures
        nodes_within(link_refs(f, d, cur, hashes), known),
    decreases hashes.len(),
{
    if hashes.len() > 0 {
        let rest = hashes.drop_last();
        assert forall|k: int| 0 <= k < rest.len() implies known.contains(#[trigger] rest[k]) by {
            assert(rest[k] == hashes[k]);
        }
        lemma_link_refs_within(f, d, cur, rest, known);
        assert(known.contains(hashes[hashes.len() - 1]));
        let g = link_refs(f, d, cur, rest);
        if hashes.last() != cur {
            lemma_add_todo_within(g, d, hashes.last(), known);
        }
    }
}

/// A crawl that reads an artifact that an earlier crawl has read meets
/// nothing that the earlier crawl has not met.
pub proof fn lemma_same_artifact_within(
    earlier: FetcherView,
    v: int,
    f: FetcherView,
    d: DatabaseView,
    n: NarView,
)
    requires
        0 <= v < earlier.states.len(),
        earlier.states.len() == earlier.graph.nodes.len(),
        earlier.states[v] == NarStateView::Fetched(n),
        is_linked(earlier.graph, v, n),
        nodes_within(f, earlier.graph.nodes),
    ensures
        nodes_within(record_nar(f, d, n), earlier.graph.nodes),
{
    let known = earlier.graph.nodes;
    let hashes = ref_hashes(n.references);
    assert forall|k: int| 0 <= k < hashes.len() implies known.contains(#[trigger] hashes[k]) by {
        let h = hashes[k];
        if h == known[v] {
        } else {
            assert(has_edge_to(earlier.graph, v, h));
            lemma_position_none(known, h);
        }
    }
    lemma_link_refs_within(f, d, path_hash(n.store_path), hashes, known);
}

/// A crawl that has met nothing but what the catalog holds has read
/// nothing but what the catalog holds: its commit adds no row. So an ingest
/// that is repeated, and reads what the first one read, leaves the rows of
/// the catalog as the first one left them.
pub proof fn lemma_within_all_held(f: FetcherView, d: DatabaseView, known: Seq<Seq<char>>)
    requires
        crawl_inv(f, d),
        nodes_within(f, known),
        forall|k: int|
            0 <= k < known.len() ==> position(row_hashes(d.nars), #[trigger] known[k]) is Some,
    ensures
        all_held(f, d),
{
    assert forall|v: int| 0 <= v < f.states.len() implies (#[trigger] f.states[v] matches NarStateView::Fetched(
        n,
    ) ==> position(row_hashes(d.nars), path_hash(n.store_path)) is Some) by {
        if let NarStateView::Fetched(n) = f.states[v] {
            assert(is_linked(f.graph, v, n));
            let h = f.graph.nodes[v];
            assert(known.contains(h));
            let k = choose|k: int| 0 <= k < known.len() && known[k] == h;
            assert(position(row_hashes(d.nars), known[k]) is Some);
        }
    }
}

/// The views of a list of states.
pub open spec fn states_view(states: Seq<NarState>) -> Seq<NarStateView> {
    Seq::new(states.len(), |i: int| states[i]@)
}

/// The crawl.
pub struct Fetcher {
    cache_url: String,
    nars: Vec<NarState>,
    dep_graph: DepGraph,
    todo: Vec<StorePathHash>,
    permits: usize,
    total: u64,
    finished: u64,
    root_hashes: Vec<StorePathHash>,
}

impl View for Fetcher {
    type V = FetcherView;

    closed spec fn view(&self) -> FetcherView {
        FetcherView {
            cache_url: self.cache_url@,
            graph: self.dep_graph@,
            states: states_view(self.nars@),
            todo: hash_texts(self.todo@),
            permits: self.permits as nat,
            total: self.total as nat,
            finished: self.finished as nat,
            root_hashes: hash_texts(self.root_hashes@),
        }
    }
}

/// What a call to `spawn_fetchers` asks for: the hashes taken from the end
/// of the list of what is to ask for, last first, as many as there are
/// permits, each with the address of its narinfo.
pub open spec fn is_spawned(f: FetcherView, g: FetcherView, asked: Seq<(Seq<char>, Seq<char>)>) -> bool {
    let k = if f.permits < f.todo.len() {
        f.permits as int
    } else {
        f.todo.len() as int
    };
    &&& asked.len() == k
    &&& forall|i: int|
        0 <= i < k ==> {
            &&& (#[trigger] asked[i]).0 == f.todo[f.todo.len() - 1 - i]
            &&& asked[i].1 == narinfo_url(f.cache_url, asked[i].0)
        }
    &&& g == FetcherView {
        todo: f.todo.subrange(0, f.todo.len() - k),
        permits: (f.permits - k) as nat,
        ..f
    }
}

impl Fetcher {
    /// The invariant of the representation.
    pub closed spec fn wf(&self) -> bool {
        self.dep_graph.wf()
    }

    /// Meets the hash `hash`: where it is new, it becomes a node of the
    /// graph; the catalog holds it already, or its narinfo is now wanted.
    pub fn check_add_todo(&mut self, db: &Database, hash: StorePathHash) -> (r: Result<(), Error>)
        requires
            old(self).wf(),
            db.wf(),
            crawl_inv(old(self)@, db@),
        ensures
            r is Ok,
            final(self).wf(),
            final(self)@ == add_todo(old(self)@, db@, hash@),
            crawl_inv(final(self)@, db@),
    {
        proof {
            lemma_add_todo(self@, db@, hash@);
        }
        if self.dep_graph.position(&hash).is_some() {
            return Ok(());
        }
        let found = match db.select_nar_id_by_hash(&hash) {
            Ok(found) => found,
            Err(e) => {
                return Err(Error::Database(e));
            },
        };
        let ghost before = self@;
        self.dep_graph.add_node(hash);
        match found {
            Some(id) => {
                self.nars.push(NarState::Inserted(id));
                assert(self@.states =~= before.states.push(NarStateView::Inserted(id as int)));
            },
            None => {
                self.nars.push(NarState::Fetching);
                let n = self.nars.len();
                self.total = self.total + 1;
                self.todo.push(hash);
                assert(self@.states =~= before.states.push(NarStateView::Fetching));
                assert(self@.todo =~= before.todo.push(hash@));
            },
        }
        Ok(())
    }

    /// A crawl from the given roots: every root is met.
    pub fn new(db: &Database, cache_url: String, root_hashes: Vec<StorePathHash>) -> (r: Result<
        Fetcher,
        Error,
    >)
        requires
            db.wf(),
        ensures
            r matches Ok(f) && {
                &&& f.wf()
                &&& f@ == add_todos(
                    empty_crawl(cache_url@, hash_texts(root_hashes@)),
                    db@,
                    hash_texts(root_hashes@),
                )
                &&& crawl_inv(f@, db@)
                &&& roots_known(f@)
                &&& (forall|i: int|
                    0 <= i < root_hashes@.len() ==> select_nar_id(
                        db@.nars,
                        #[trigger] hash_texts(root_hashes@)[i],
                    ) is Some) ==> f@.todo.len() == 0 && f@.total == 0 && f@.finished == 0
            },
    {
        let ghost roots = hash_texts(root_hashes@);
        let mut f = Fetcher {
            cache_url,
            nars: Vec::new(),
            dep_graph: DepGraph::new(),
            todo: Vec::new(),
            permits: MAX_CONCURRENT_FETCH,
            total: 0,
            finished: 0,
            root_hashes,
        };
        proof {
            f.dep_graph.lemma_wf();
            assert(f@.graph.nodes =~= Seq::<Seq<char>>::empty());
            assert(f@.graph.edges =~= Seq::<Seq<int>>::empty());
            assert(f@.states =~= Seq::<NarStateView>::empty());
            assert(f@.todo =~= Seq::<Seq<char>>::empty());
            assert(f@ == empty_crawl(cache_url@, roots));
            assert(roots.subrange(0, 0) =~= Seq::<Seq<char>>::empty());
        }
        let mut i: usize = 0;
        while i < f.root_hashes.len()
            invariant
                db.wf(),
                f.wf(),
                i <= f.root_hashes@.len(),
                roots == hash_texts(f.root_hashes@),
                f@.root_hashes == roots,
                crawl_inv(f@, db@),
                f@ == add_todos(empty_crawl(cache_url@, roots), db@, roots.subrange(0, i as int)),
                forall|k: int| 0 <= k < i ==> f@.graph.nodes.contains(#[trigger] roots[k]),
                f@.finished == 0,
                (forall|k: int| 0 <= k < i ==> select_nar_id(db@.nars, #[trigger] roots[k]) is Some)
                    ==> f@.todo.len() == 0 && f@.total == 0,
            decreases f.root_hashes.len() - i,
        {
            let hash = f.root_hashes[i];
            proof {
                let part = roots.subrange(0, i + 1);
                assert(part.drop_last() =~= roots.subrange(0, i as int));
                assert(part.last() == hash@);
                lemma_add_todo(f@, db@, hash@);
            }
            let ghost before = f@;
            match f.check_add_todo(db, hash) {
                Ok(_) => {},
                Err(e) => {
                    return Err(e);
                },
            }
            proof {
                assert forall|k: int| 0 <= k < i + 1 implies f@.graph.nodes.contains(
                    #[trigger] roots[k],
                ) by {
                    if k < i {
                        assert(before.graph.nodes.contains(roots[k]));
                    }
                }
            }
            i += 1;
        }
        assert(roots.subrange(0, roots.len() as int) =~= roots);
        Ok(f)
    }

    /// The address of the narinfo of `hash`.
    fn narinfo_url_of(&self, hash: &StorePathHash) -> (r: String)
        ensures
            r@ == narinfo_url(self@.cache_url, hash@),
    {
        let mut url = self.cache_url.clone();
        url.append("/");
        url.append(hash.as_str());
        url.append(".narinfo");
        url
    }

    /// Takes hashes from the list of what is to ask for, as many as there
    /// are permits, and gives each with the address of its narinfo. The
    /// caller fetches each address and hands the outcome to `on_fetched`.
    pub fn spawn_fetchers(&mut self) -> (asked: Vec<(StorePathHash, String)>)
        requires
            old(self).wf(),
        ensures
            final(self).wf(),
            is_spawned(
                old(self)@,
                final(self)@,
                Seq::new(asked@.len(), |i: int| (asked@[i].0@, asked@[i].1@)),
            ),
    {
        let ghost f = self@;
        let ghost len = f.todo.len() as int;
        let mut asked: Vec<(StorePathHash, String)> = Vec::new();
        assert(f.todo.subrange(0, len) =~= f.todo);
        while self.permits != 0 && self.todo.len() != 0
            invariant
                self.wf(),
                len == f.todo.len(),
                asked@.len() <= len,
                asked@.len() <= f.permits,
                self@ == (FetcherView {
                    todo: f.todo.subrange(0, len - asked@.len()),
                    permits: (f.permits - asked@.len()) as nat,
                    ..f
                }),
                forall|i: int|
                    0 <= i < asked@.len() ==> {
                        &&& (#[trigger] asked@[i]).0@ == f.todo[len - 1 - i]
                        &&& asked@[i].1@ == narinfo_url(f.cache_url, asked@[i].0@)
                    },
            decreases self.todo@.len(),
        {
            let ghost before = self@;
            match self.todo.pop() {
                Some(hash) => {
                    self.permits -= 1;
                    let url = self.narinfo_url_of(&hash);
                    asked.push((hash, url));
                    proof {
                        assert(hash@ == before.todo[before.todo.len() - 1]);
                        assert(self@.todo =~= f.todo.subrange(0, len - asked@.len()));
                    }
                },
                None => {},
            }
        }
        proof {
            let k = if f.permits < f.todo.len() {
                f.permits as int
            } else {
                f.todo.len() as int
            };
            if self.permits != 0 {
                assert(self@.todo.len() == 0);
            }
            assert(asked@.len() == k);
        }
        asked
    }

    /// Reads the narinfo text that came for `hash`, meets and links what it
    /// refers to, and keeps the artifact. On failure the crawl is to be
    /// given up.
    pub fn parse_one(&mut self, db: &Database, hash: StorePathHash, text: &str) -> (r: Result<
        (),
        FetchCause,
    >)
        requires
            old(self).wf(),
            db.wf(),
            crawl_inv(old(self)@, db@),
        ensures
            final(self).wf(),
            crawl_inv(final(self)@, db@),
            roots_known(old(self)@) ==> roots_known(final(self)@),
            match r {
                Ok(_) => accepted(old(self)@, hash@, text@) matches Ok(n) && final(self)@
                    == record_nar(old(self)@, db@, n),
                Err(cause) => accepted(old(self)@, hash@, text@) matches Err(why) && rejection_of(
                    cause,
                ) == Some(why) && final(self)@ == old(self)@,
            },
    {
        let nar = match Nar::parse_nar_info(text) {
            Ok(nar) => nar,
            Err(e) => {
                return Err(FetchCause::Parse(e));
            },
        };
        let cur = nar.store_path.hash();
        let _ = nar.store_path.path();
        assert(is_store_path(nar@.store_path));
        if !cur.same(&hash) {
            return Err(FetchCause::UnexpectedStorePath);
        }
        let v = match self.dep_graph.position(&hash) {
            Some(v) => v,
            None => {
                return Err(FetchCause::NotAwaited);
            },
        };
        match self.nars[v] {
            NarState::Fetching => {},
            _ => {
                assert(self@.states[v as int] == self.nars@[v as int]@);
                return Err(FetchCause::NotAwaited);
            },
        }
        assert(self@.states[v as int] == self.nars@[v as int]@);
        let hashes = match checked_ref_hashes(&nar) {
            Ok(hashes) => hashes,
            Err(e) => {
                return Err(FetchCause::Parse(ParseError::InvalidStorePath(e)));
            },
        };
        let ghost f0 = self@;
        let ghost texts = hash_texts(hashes@);
        let ghost n = nar@;
        let mut k: usize = 0;
        proof {
            assert(texts.subrange(0, 0) =~= Seq::<Seq<char>>::empty());
            self.dep_graph.lemma_wf();
        }
        while k < hashes.len()
            invariant
                self.wf(),
                db.wf(),
                k <= hashes@.len(),
                texts == hash_texts(hashes@),
                texts == ref_hashes(n.references),
                cur@ == hash@,
                cur@ == path_hash(n.store_path),
                is_store_path(n.store_path),
                refs_valid(n.references),
                crawl_inv(self@, db@),
                roots_known(f0) ==> roots_known(self@),
                self@ == link_refs(f0, db@, cur@, texts.subrange(0, k as int)),
                v < self@.states.len(),
                self@.graph.nodes[v as int] == cur@,
                self@.states[v as int] == NarStateView::Fetching,
                forall|j: int|
                    0 <= j < k ==> #[trigger] texts[j] == cur@ || has_edge_to(
                        self@.graph,
                        v as int,
                        texts[j],
                    ),
            decreases hashes.len() - k,
        {
            let h = hashes[k];
            let ghost before = self@;
            proof {
                let part = texts.subrange(0, k + 1);
                assert(part.drop_last() =~= texts.subrange(0, k as int));
                assert(part.last() == h@);
                lemma_add_todo(before, db@, h@);
            }
            if !h.same(&cur) {
                let _ = self.check_add_todo(db, h);
                let ghost mid = self@;
                proof {
                    assert(mid.graph.nodes.contains(cur@)) by {
                        assert(before.graph.nodes[v as int] == cur@);
                        assert(before.graph.nodes.contains(cur@));
                    }
                    lemma_add_edge(mid, db@, cur@, h@);
                    lemma_position(mid.graph.nodes, cur@, v as int);
                }
                self.dep_graph.add_dep(cur, h);
                proof {
                    assert(self@ == FetcherView { graph: add_edge(mid.graph, cur@, h@), ..mid });
                    assert forall|j: int| 0 <= j < k + 1 implies #[trigger] texts[j] == cur@
                        || has_edge_to(self@.graph, v as int, texts[j]) by {
                        if j < k && texts[j] != cur@ {
                            let x = texts[j];
                            assert(has_edge_to(before.graph, v as int, x));
                            lemma_position_none(before.graph.nodes, x);
                            if !before.graph.nodes.contains(h@) {
                                lemma_position_push(before.graph.nodes, h@, x);
                            }
                            assert(mid.graph.edges[v as int] == before.graph.edges[v as int]);
                            assert(has_edge_to(mid.graph, v as int, x));
                        }
                    }
                }
            }
            k += 1;
        }
        proof {
            assert(texts.subrange(0, hashes@.len() as int) =~= texts);
            lemma_position(f0.graph.nodes, cur@, v as int);
        }
        let ghost g = self@;
        self.nars[v] = NarState::Fetched(nar);
        proof {
            lemma_count_update(g.states, v as int, n, g.states.len() as int);
            lemma_count_bound(g.states.update(v as int, NarStateView::Fetched(n)), g.states.len() as int);
            assert(states_view(self.nars@) =~= g.states.update(v as int, NarStateView::Fetched(n)));
        }
        let len = self.nars.len();
        self.finished = self.finished + 1;
        proof {
            let fin = self@;
            assert(fin == record_nar(f0, db@, n));
            assert(is_linked(fin.graph, v as int, n));
            assert forall|w: int| 0 <= w < fin.states.len() implies (#[trigger] fin.states[w] matches NarStateView::Fetched(
                m,
            ) ==> is_linked(fin.graph, w, m)) by {
                if w != v {
                    assert(fin.states[w] == g.states[w]);
                }
            }
            assert forall|w: int| 0 <= w < fin.states.len() implies (#[trigger] fin.states[w] matches NarStateView::Inserted(
                id,
            ) ==> nar_id_of_hash(db@.nars, fin.graph.nodes[w]) == Some(id)) by {
                if w != v {
                    assert(fin.states[w] == g.states[w]);
                }
            }
        }
        Ok(())
    }

    /// Takes the outcome of the fetch of the narinfo of `hash`: the text, or
    /// how the transport failed. The permit of the fetch is free again. On
    /// failure the crawl is to be given up.
    pub fn on_fetched(
        &mut self,
        db: &Database,
        hash: StorePathHash,
        outcome: Result<String, String>,
    ) -> (r: Result<(), Error>)
        requires
            old(self).wf(),
            db.wf(),
            crawl_inv(old(self)@, db@),
        ensures
            final(self).wf(),
            crawl_inv(final(self)@, db@),
            roots_known(old(self)@) ==> roots_known(final(self)@),
            match r {
                Ok(_) => outcome matches Ok(text) && accepted(release(old(self)@), hash@, text@) matches Ok(
                    n,
                ) && final(self)@ == record_nar(release(old(self)@), db@, n),
                Err(Error::FetchFailed(failed, cause)) => failed@ == hash@ && final(self)@
                    == release(old(self)@) && match outcome {
                    Ok(text) => accepted(release(old(self)@), hash@, text@) matches Err(why)
                        && rejection_of(cause) == Some(why),
                    Err(message) => cause matches FetchCause::Transport(m) && m@ == message@,
                },
                Err(_) => false,
            },
    {
        if self.permits < MAX_CONCURRENT_FETCH {
            self.permits += 1;
        }
        assert(self@ == release(old(self)@));
        match outcome {
            Ok(text) => {
                match self.parse_one(db, hash, text.as_str()) {
                    Ok(_) => Ok(()),
                    Err(cause) => Err(Error::FetchFailed(hash, cause)),
                }
            },
            Err(message) => Err(Error::FetchFailed(hash, FetchCause::Transport(message))),
        }
    }

    /// Commits the artifacts that were read to the catalog, every artifact
    /// after those it refers to, and gives the ids of the roots. Nothing is
    /// committed where the references go in a circle, where a narinfo is
    /// still awaited, or where the catalog has no room for one row for each
    /// node. After the commit the catalog holds every store path that the
    /// crawl has met; every row that was added is the row of an artifact
    /// that was read; and a catalog that held all that was read stays as it
    /// was.
    pub fn save_all(self, db: &mut Database) -> (r: Result<Vec<i64>, Error>)
        requires
            self.wf(),
            old(db).wf(),
            crawl_inv(self@, old(db)@),
            roots_known(self@),
        ensures
            final(db).wf(),
            match r {
                Ok(ids) => {
                    &&& is_acyclic(self@.graph.edges)
                    &&& forall|v: int|
                        0 <= v < self@.states.len() ==> !(#[trigger] self@.states[v] is Fetching)
                    &&& has_room(old(db)@, self@.states.len())
                    &&& extends(old(db)@, final(db)@)
                    &&& forall|v: int|
                        0 <= v < self@.states.len() ==> (#[trigger] self@.states[v] matches NarStateView::Fetched(
                            n,
                        ) ==> is_committed(old(db)@, final(db)@, n))
                    &&& forall|i: int|
                        old(db)@.nars.len() <= i < final(db)@.nars.len()
                            ==> #[trigger] is_row_of_read(self@.states, final(db)@.nars, i)
                    &&& ids@.len() == self@.root_hashes.len()
                    &&& forall|i: int|
                        0 <= i < ids@.len() ==> nar_id_of_hash(
                            final(db)@.nars,
                            self@.root_hashes[i],
                        ) == Some(#[trigger] ids@[i] as int)
                    &&& forall|v: int|
                        0 <= v < self@.states.len() ==> position(
                            row_hashes(final(db)@.nars),
                            #[trigger] self@.graph.nodes[v],
                        ) is Some
                    &&& all_held(self@, old(db)@) ==> final(db)@ == old(db)@
                },
                Err(Error::CyclicReferences) => !is_acyclic(self@.graph.edges) && final(db)@
                    == old(db)@,
                Err(Error::IncompleteFetch) => is_acyclic(self@.graph.edges) && (exists|v: int|
                    0 <= v < self@.states.len() && #[trigger] self@.states[v] is Fetching)
                    && final(db)@ == old(db)@,
                Err(Error::Database(e)) => is_acyclic(self@.graph.edges) && (forall|v: int|
                    0 <= v < self@.states.len() ==> !(#[trigger] self@.states[v] is Fetching))
                    && !has_room(old(db)@, self@.states.len()) && e is InvalidDatabase
                    && final(db)@ == old(db)@,
                Err(_) => false,
            },
    {
        let ghost f = self@;
        let ghost g = f.graph;
        let ghost s0 = f.states;
        let ghost d0 = db@;
        let mut this = self;
        let n = this.nars.len();
        proof {
            this.dep_graph.lemma_wf();
        }
        let order = this.dep_graph.topo_order();
        let ghost ord = list_view(order@);
        if order.len() != n {
            return Err(Error::CyclicReferences);
        }
        let mut v: usize = 0;
        while v < n
            invariant
                v <= n == this.nars@.len(),
                this@ == f,
                self@ == f,
                s0 == f.states,
                db.wf(),
                db@ == d0,
                g == f.graph,
                is_acyclic(g.edges),
                forall|u: int| 0 <= u < v ==> !(#[trigger] s0[u] is Fetching),
            decreases n - v,
        {
            match this.nars[v] {
                NarState::Fetching => {
                    assert(s0[v as int] == this.nars@[v as int]@);
                    assert(0 <= v < f.states.len() && f.states[v as int] is Fetching);
                    return Err(Error::IncompleteFetch);
                },
                _ => {
                    assert(s0[v as int] == this.nars@[v as int]@);
                },
            }
            v += 1;
        }
        if db.nar_count() as u128 + n as u128 >= i64::MAX as u128 {
            return Err(
                Error::Database(crate::database::Error::InvalidDatabase("Too many rows".to_owned())),
            );
        }
        proof {
            lemma_full_order_lists_all(g.edges, ord);
            db.lemma_catalog_inv();
        }
        let mut p: usize = n;
        while p > 0
            invariant
                p <= n == this.nars@.len(),
                n == s0.len(),
                this.wf(),
                this@.graph == g,
                this@.root_hashes == f.root_hashes,
                this.dep_graph@ == g,
                db.wf(),
                crawl_inv(f, d0),
                f.graph == g,
                f.states == s0,
                ord == list_view(order@),
                ord.len() == n,
                is_topological(g.edges, ord),
                forall|u: int| 0 <= u < n ==> ord.contains(u),
                forall|u: int| 0 <= u < n ==> !(#[trigger] s0[u] is Fetching),
                extends(d0, db@),
                all_held(f, d0) ==> db@ == d0,
                db@.nars.len() <= d0.nars.len() + (n - p),
                d0.nars.len() + n < i64::MAX,
                forall|u: int|
                    0 <= u < n ==> (#[trigger] states_view(this.nars@)[u] matches NarStateView::Inserted(
                        id,
                    ) ==> nar_id_of_hash(db@.nars, g.nodes[u]) == Some(id)),
                forall|r: int|
                    p <= r < n ==> states_view(this.nars@)[#[trigger] ord[r]] is Inserted,
                forall|r: int|
                    0 <= r < p ==> states_view(this.nars@)[#[trigger] ord[r]] == s0[ord[r]],
                forall|u: int|
                    0 <= u < n ==> (#[trigger] s0[u] matches NarStateView::Fetched(m) ==> (
                    states_view(this.nars@)[u] is Inserted ==> is_committed(d0, db@, m))),
                forall|i: int|
                    d0.nars.len() <= i < db@.nars.len() ==> row_has_node(
                        g.nodes,
                        states_view(this.nars@),
                        #[trigger] db@.nars[i],
                    ),
                forall|i: int|
                    d0.nars.len() <= i < db@.nars.len() ==> #[trigger] is_row_of_read(
                        s0,
                        db@.nars,
                        i,
                    ),
            decreases p,
        {
            p -= 1;
            let v = order[p];
            let ghost cur = states_view(this.nars@);
            let ghost d = db@;
            assert(ord[p as int] == v);
            assert(0 <= ord[p as int] < n);
            assert(cur[v as int] == s0[v as int]);
            assert(cur[v as int] == this.nars@[v as int]@);
            let inserted = match &this.nars[v] {
                NarState::Fetched(nar) => {
                    let ghost m = nar@;
                    proof {
                        db.lemma_catalog_inv();
                        assert(is_linked(g, v as int, m));
                        let own = path_hash(m.store_path);
                        let hashes = ref_hashes(m.references);
                        let keys = row_hashes(d.nars);
                        assert forall|k: int| 0 <= k < hashes.len() implies #[trigger] hashes[k]
                            == own || position(keys, hashes[k]) is Some by {
                            let x = hashes[k];
                            if x != own {
                                assert(has_edge_to(g, v as int, x));
                                lemma_position_none(g.nodes, x);
                                let w = position(g.nodes, x)->0;
                                let j = choose|j: int|
                                    0 <= j < g.edges[v as int].len() && g.edges[v as int][j] == w;
                                assert(ord.contains(w));
                                let q = choose|q: int| 0 <= q < ord.len() && ord[q] == w;
                                assert(ord[q] == g.edges[v as int][j]);
                                assert(stands_before(ord, v as int, q));
                                let earlier = choose|earlier: int|
                                    0 <= earlier < q && earlier < ord.len() && #[trigger] ord[earlier] == v as int;
                                if earlier < p {
                                    assert(ord[earlier] != ord[p as int]);
                                } else if p < earlier {
                                    assert(ord[p as int] != ord[earlier]);
                                }
                                assert(cur[ord[q]] is Inserted);
                                assert(nar_id_of_hash(d.nars, g.nodes[w]) is Some);
                            }
                        }
                        if position(keys, own) is None {
                            lemma_insert_linked(d, m);
                        }
                    }
                    match db.insert_or_ignore_nar(NarStatus::Pending, nar) {
                        Ok(id) => Some(id),
                        Err(e) => {
                            return Err(Error::Database(e));
                        },
                    }
                },
                _ => None,
            };
            match inserted {
                Some(id) => {
                    this.nars[v] = NarState::Inserted(id);
                    proof {
                        let m = s0[v as int]->Fetched_0;
                        let own = path_hash(m.store_path);
                        let keys = row_hashes(d.nars);
                        let now = states_view(this.nars@);
                        assert(now =~= cur.update(v as int, NarStateView::Inserted(id as int)));
                        db.lemma_catalog_inv();
                        lemma_position_none(keys, own);
                        if position(keys, own) is Some {
                            assert(db@ == d);
                            let i = position(keys, own)->0;
                            if i >= d0.nars.len() {
                                assert(row_has_node(g.nodes, cur, d.nars[i]));
                                let u = choose|u: int|
                                    0 <= u < n && cur[u] is Inserted && #[trigger] g.nodes[u]
                                        == path_hash(d.nars[i].store_path);
                                assert(keys[i] == path_hash(d.nars[i].store_path));
                                if u < v {
                                    assert(g.nodes[u] != g.nodes[v as int]);
                                } else if v < u {
                                    assert(g.nodes[v as int] != g.nodes[u]);
                                }
                            }
                            assert(is_committed(d0, db@, m));
                        } else {
                            lemma_insert_linked(d, m);
                            assert(is_committed(d0, db@, m));
                        }
                        assert forall|u: int| 0 <= u < n implies (#[trigger] now[u] matches NarStateView::Inserted(
                            id2,
                        ) ==> nar_id_of_hash(db@.nars, g.nodes[u]) == Some(id2)) by {
                            if u != v {
                                if let NarStateView::Inserted(id2) = cur[u] {
                                    assert(nar_id_of_hash(d.nars, g.nodes[u]) == Some(id2));
                                    lemma_position_none(keys, g.nodes[u]);
                                }
                            }
                        }
                        assert forall|u: int| 0 <= u < n implies (#[trigger] s0[u] matches NarStateView::Fetched(
                            m2,
                        ) ==> (now[u] is Inserted ==> is_committed(d0, db@, m2))) by {
                            if u != v {
                                if let NarStateView::Fetched(m2) = s0[u] {
                                    if cur[u] is Inserted {
                                        assert(is_linked(g, u, m2));
                                        assert(nar_id_of_hash(d.nars, g.nodes[u]) is Some);
                                        lemma_position_none(keys, g.nodes[u]);
                                        lemma_committed_stays(d0, d, db@, m2);
                                    }
                                }
                            }
                        }
                        assert forall|r: int| p <= r < n implies now[#[trigger] ord[r]] is Inserted by {
                            if r > p {
                                assert(cur[ord[r]] is Inserted);
                            }
                        }
                        assert forall|r: int| 0 <= r < p implies now[#[trigger] ord[r]]
                            == s0[ord[r]] by {
                            assert(ord[r] != ord[p as int]);
                            assert(cur[ord[r]] == s0[ord[r]]);
                        }
                        assert forall|i: int| d0.nars.len() <= i < db@.nars.len() implies row_has_node(
                            g.nodes,
                            now,
                            #[trigger] db@.nars[i],
                        ) by {
                            if i < d.nars.len() {
                                assert(row_has_node(g.nodes, cur, d.nars[i]));
                                let u = choose|u: int|
                                    0 <= u < n && cur[u] is Inserted && #[trigger] g.nodes[u]
                                        == path_hash(d.nars[i].store_path);
                                assert(db@.nars[i] == d.nars[i]);
                                assert(now[u] is Inserted);
                            } else {
                                assert(g.nodes[v as int] == path_hash(db@.nars[i].store_path));
                                assert(now[v as int] is Inserted);
                            }
                        }
                        assert forall|i: int|
                            d0.nars.len() <= i < db@.nars.len() implies #[trigger] is_row_of_read(
                            s0,
                            db@.nars,
                            i,
                        ) by {
                            if i < d.nars.len() {
                                assert(is_row_of_read(s0, d.nars, i));
                                let u = choose|u: int|
                                    0 <= u < s0.len() && is_row_of(#[trigger] s0[u], d.nars, i);
                                if position(keys, own) is None {
                                    lemma_insert_linked(d, m);
                                }
                                lemma_row_stays(s0[u], d.nars, db@.nars, i);
                            } else {
                                lemma_insert_linked(d, m);
                                assert(is_row_of(s0[v as int], db@.nars, i));
                            }
                        }
                    }
                },
                None => {
                    proof {
                        assert(cur[v as int] is Inserted);
                    }
                },
            }
        }
        proof {
            let now = states_view(this.nars@);
            assert forall|u: int| 0 <= u < n implies #[trigger] now[u] is Inserted by {
                assert(ord.contains(u));
                let r = choose|r: int| 0 <= r < ord.len() && ord[r] == u;
                assert(now[ord[r]] is Inserted);
            }
        }
        let mut ids: Vec<i64> = Vec::new();
        let mut i: usize = 0;
        while i < this.root_hashes.len()
            invariant
                i <= this.root_hashes@.len(),
                ids@.len() == i,
                n == this.nars@.len(),
                n == g.nodes.len(),
                this.wf(),
                this.dep_graph@ == g,
                this@.root_hashes == f.root_hashes,
                roots_known(f),
                f.graph == g,
                f.states == s0,
                n == s0.len(),
                db.wf(),
                is_acyclic(g.edges),
                forall|u: int| 0 <= u < n ==> !(#[trigger] s0[u] is Fetching),
                d0.nars.len() + n < i64::MAX,
                extends(d0, db@),
                all_held(f, d0) ==> db@ == d0,
                forall|i: int|
                    d0.nars.len() <= i < db@.nars.len() ==> #[trigger] is_row_of_read(
                        s0,
                        db@.nars,
                        i,
                    ),
                forall|u: int|
                    0 <= u < n ==> (#[trigger] s0[u] matches NarStateView::Fetched(m)
                        ==> is_committed(d0, db@, m)),
                forall|u: int| 0 <= u < n ==> #[trigger] states_view(this.nars@)[u] is Inserted,
                forall|u: int|
                    0 <= u < n ==> (#[trigger] states_view(this.nars@)[u] matches NarStateView::Inserted(
                        id,
                    ) ==> nar_id_of_hash(db@.nars, g.nodes[u]) == Some(id)),
                forall|k: int|
                    0 <= k < i ==> nar_id_of_hash(db@.nars, f.root_hashes[k]) == Some(
                        #[trigger] ids@[k] as int,
                    ),
            decreases this.root_hashes.len() - i,
        {
            let hash = this.root_hashes[i];
            assert(f.root_hashes[i as int] == hash@);
            assert(g.nodes.contains(f.root_hashes[i as int]));
            let found = match this.dep_graph.position(&hash) {
                Some(u) => {
                    assert(states_view(this.nars@)[u as int] == this.nars@[u as int]@);
                    this.nars[u].as_inserted()
                },
                None => None,
            };
            match found {
                Some(id) => {
                    ids.push(id);
                },
                None => {
                    return Err(Error::IncompleteFetch);
                },
            }
            i += 1;
        }
        proof {
            assert forall|u: int| 0 <= u < n implies position(
                row_hashes(db@.nars),
                #[trigger] g.nodes[u],
            ) is Some by {
                assert(states_view(this.nars@)[u] is Inserted);
            }
        }
        Ok(ids)
    }

    /// The hashes of the store paths that the crawl started from.
    pub fn root_hashes(&self) -> (r: Vec<StorePathHash>)
        ensures
            hash_texts(r@) == self@.root_hashes,
    {
        let mut out: Vec<StorePathHash> = Vec::new();
        let mut i: usize = 0;
        while i < self.root_hashes.len()
            invariant
                i <= self.root_hashes@.len(),
                out@ == self.root_hashes@.subrange(0, i as int),
            decreases self.root_hashes.len() - i,
        {
            out.push(self.root_hashes[i]);
            assert(out@ =~= self.root_hashes@.subrange(0, i + 1));
            i += 1;
        }
        assert(out@ =~= self.root_hashes@);
        out
    }

    /// How many narinfo texts were read, and how many were wanted, so far.
    pub fn progress(&self) -> (r: (u64, u64))
        ensures
            r.0 == self@.finished,
            r.1 == self@.total,
    {
        (self.finished, self.total)
    }

    /// How many narinfo texts were wanted, once all of them were read:
    /// fails while a narinfo is awaited.
    pub fn finish_fetch(&self) -> (r: Result<u64, Error>)
        requires
            counts_inv(self@),
        ensures
            match r {
                Ok(total) => total == self@.total && self@.finished == self@.total && forall|
                    v: int,
                |
                    0 <= v < self@.states.len() ==> !(#[trigger] self@.states[v] is Fetching),
                Err(e) => e is IncompleteFetch && self@.finished != self@.total && exists|v: int|
                    0 <= v < self@.states.len() && #[trigger] self@.states[v] is Fetching,
            },
    {
        proof {
            lemma_none_awaited(self@.states, self@.states.len() as int);
        }
        if self.total == self.finished {
            Ok(self.total)
        } else {
            Err(Error::IncompleteFetch)
        }
    }
}

} // verus!
