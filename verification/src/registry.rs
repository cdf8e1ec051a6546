//! The registry of named graphs and its four operations.
//!
//! A registry maps names to graphs; a graph owns a fixed vertex count and a
//! deduplicated, weight-ordered edge set. Every failure is reported to the
//! caller as a value: no operation panics and none leaves the registry
//! half-changed.

use vstd::prelude::*;

use crate::dsu::DSU;
use crate::edges::Edge;
use crate::edges::EdgeSet;
use crate::edges::insert_sorted;
use crate::edges::lemma_insert_sorted_to_set;
use crate::edges::sorted_edges;
use crate::mst::mst_weight;

verus! {

/// Why an operation was refused. Each failure is recoverable and reported
/// to its caller; the registry is left unchanged.
#[derive(Clone, Copy, Debug, PartialEq, Eq, Structural)]
pub enum GraphError {
    /// A graph of that name is already live.
    AlreadyExists,
    /// No graph of that name is live.
    NotFound,
    /// A vertex count of zero or above the ceiling, or an endpoint outside
    /// the graph's vertex range.
    InvalidArgument,
}

/// The highest accepted vertex count. It keeps every spanning-tree weight —
/// at most `n - 1` edges of weight below `2^32` — within `i64`, and every
/// vertex index within `usize`.
pub const MAX_VERTICES: u32 = 0x7fff_ffff;

/// What one graph holds: its vertex count and its ascending edge sequence.
pub struct GraphView {
    pub n: u32,
    pub edges: Seq<Edge>,
}

/// The contents of the whole registry.
pub type RegView = Map<Seq<char>, GraphView>;

/// Whether both endpoints name vertices of a graph with `n` vertices.
pub open spec fn endpoints_in_range(u: u32, v: u32, n: u32) -> bool {
    1 <= u <= n && 1 <= v <= n
}

/// An edge triple as stored: weight first, endpoints in ascending order.
pub open spec fn normal_edge(u: u32, v: u32, w: u32) -> Edge {
    if u < v {
        (w, u, v)
    } else {
        (w, v, u)
    }
}

/// A just-created graph: `n` vertices, no edges.
pub open spec fn empty_graph_view(n: u32) -> GraphView {
    GraphView { n, edges: Seq::empty() }
}

/// A graph after one `add_edge`: the normalised triple at its ordered
/// position.
pub open spec fn graph_with_edge(g: GraphView, u: u32, v: u32, w: u32) -> GraphView {
    GraphView { n: g.n, edges: insert_sorted(g.edges, normal_edge(u, v, w)) }
}

/// One named graph: vertex count fixed at creation, edges added one at a
/// time.
pub struct Graph {
    n: u32,
    edges: EdgeSet,
}

impl View for Graph {
    type V = GraphView;

    closed spec fn view(&self) -> GraphView {
        GraphView { n: self.n, edges: self.edges@ }
    }
}

impl Graph {
    /// The graph's invariant: an accepted vertex count, edges in strict
    /// ascending order, every endpoint in `1..=n` and no self-loops.
    pub open spec fn wf(&self) -> bool {
        &&& 1 <= self@.n <= MAX_VERTICES
        &&& sorted_edges(self@.edges)
        &&& forall|i: int|
            0 <= i < self@.edges.len() ==> stored_edge_ok(#[trigger] self@.edges[i], self@.n)
    }

    /// An empty graph with vertices `1..=n`.
    pub fn new(n: u32) -> (g: Graph)
        requires
            1 <= n <= MAX_VERTICES,
        ensures
            g.wf(),
            g@ == empty_graph_view(n),
    {
        let g = Graph { n, edges: EdgeSet::new() };
        proof {
            assert(g@ == empty_graph_view(n)) by {
                assert(g@.edges =~= empty_graph_view(n).edges);
            }
        }
        g
    }

    /// The vertex count fixed at creation.
    pub fn vertex_count(&self) -> (r: u32)
        ensures
            r == self@.n,
    {
        self.n
    }

    /// How many distinct edges the graph holds.
    pub fn edge_count(&self) -> (r: usize)
        ensures
            r == self@.edges.len(),
    {
        self.edges.len()
    }

    /// Stores the edge `u — v` of weight `w`, normalised to put the lower
    /// endpoint first; a triple already present changes nothing.
    pub fn insert_edge(&mut self, u: u32, v: u32, w: u32)
        requires
            old(self).wf(),
            u != v,
            endpoints_in_range(u, v, old(self)@.n),
        ensures
            final(self).wf(),
            final(self)@ == graph_with_edge(old(self)@, u, v, w),
            final(self)@.edges.to_set() == old(self)@.edges.to_set().insert(
                normal_edge(u, v, w),
            ),
    {
        let ghost pre = self@;
        let e = if u < v {
            (w, u, v)
        } else {
            (w, v, u)
        };
        self.edges.insert(e);
        proof {
            lemma_insert_sorted_to_set(pre.edges, e);
            assert forall|i: int| 0 <= i < self@.edges.len() implies stored_edge_ok(
                #[trigger] self@.edges[i],
                self@.n,
            ) by {
                let x = self@.edges[i];
                assert(self@.edges.contains(x));
                assert(self@.edges.to_set().contains(x));
                if x != e {
                    assert(pre.edges.to_set().contains(x));
                    let k = choose|k: int| 0 <= k < pre.edges.len() && pre.edges[k] == x;
                    assert(stored_edge_ok(pre.edges[k], pre.n));
                }
            }
            assert(final(self)@ == graph_with_edge(pre, u, v, w));
        }
    }

    /// A copy of the graph, as `get_mst` snapshots one before computing.
    pub fn duplicate(&self) -> (r: Graph)
        requires
            self.wf(),
        ensures
            r.wf(),
            r@ == self@,
    {
        let mut copy = EdgeSet::new();
        let m = self.edges.len();
        let mut i: usize = 0;
        while i < m
            invariant
                m == self@.edges.len(),
                i <= m,
                self.wf(),
                copy.wf(),
                copy@ == self@.edges.take(i as int),
            decreases m - i,
        {
            let e = self.edges.get(i);
            proof {
                crate::edges::lemma_insert_sorted_at(copy@, e, i as int);
                assert forall|k: int| 0 <= k < i implies crate::edges::edge_lt(
                    #[trigger] copy@[k],
                    e,
                ) by {
                    assert(copy@[k] == self@.edges[k]);
                }
                assert(copy@.take(i as int) + seq![e] + copy@.skip(i as int) =~= self@.edges.take(
                    i + 1,
                ));
            }
            copy.insert(e);
            i += 1;
        }
        proof {
            assert(copy@ =~= self@.edges);
        }
        let r = Graph { n: self.n, edges: copy };
        proof {
            assert(r@ == self@) by {
                assert(r@.edges =~= self@.edges);
            }
        }
        r
    }

    /// The weight of this graph's minimum spanning tree, or `-1` if it is
    /// not connected: Kruskal's algorithm over a fresh union-find structure.
    pub fn mst(&self) -> (r: i64)
        requires
            self.wf(),
        ensures
            r as int == mst_weight(self@.n as int, self@.edges),
    {
        let mut d = DSU::new(self.n as usize);
        d.get_mst(&self.edges)
    }
}

/// Endpoints in range and strictly ascending: no self-loop is ever stored.
pub open spec fn stored_edge_ok(e: Edge, n: u32) -> bool {
    &&& 1 <= e.1 <= n
    &&& 1 <= e.2 <= n
    &&& e.1 < e.2
}

/// What a successful or failed `add_graph` leaves behind.
pub open spec fn add_graph_post(
    pre: RegView,
    post: RegView,
    name: Seq<char>,
    n: u32,
    r: Result<(), GraphError>,
) -> bool {
    match r {
        Ok(()) => 1 <= n <= MAX_VERTICES && !pre.dom().contains(name) && post == pre.insert(
            name,
            empty_graph_view(n),
        ),
        Err(GraphError::AlreadyExists) => 1 <= n <= MAX_VERTICES && pre.dom().contains(name)
            && post == pre,
        Err(GraphError::InvalidArgument) => !(1 <= n <= MAX_VERTICES) && post == pre,
        Err(GraphError::NotFound) => false,
    }
}

/// What a successful or failed `add_edge` leaves behind. A self-loop is
/// ignored before anything else is looked at, as the service defines it.
pub open spec fn add_edge_post(
    pre: RegView,
    post: RegView,
    name: Seq<char>,
    u: u32,
    v: u32,
    w: u32,
    r: Result<(), GraphError>,
) -> bool {
    match r {
        Ok(()) => if u == v {
            post == pre
        } else {
            pre.dom().contains(name) && endpoints_in_range(u, v, pre[name].n) && post
                == pre.insert(name, graph_with_edge(pre[name], u, v, w))
        },
        Err(GraphError::NotFound) => u != v && !pre.dom().contains(name) && post == pre,
        Err(GraphError::InvalidArgument) => u != v && pre.dom().contains(name)
            && !endpoints_in_range(u, v, pre[name].n) && post == pre,
        Err(GraphError::AlreadyExists) => false,
    }
}

/// What `get_mst` answers: the spanning-tree weight of the named graph's
/// snapshot, `-1` for a graph not yet connected, `NotFound` for a name not
/// held.
pub open spec fn get_mst_post(
    pre: RegView,
    name: Seq<char>,
    r: Result<i64, GraphError>,
) -> bool {
    match r {
        Ok(w) => pre.dom().contains(name) && w as int == mst_weight(
            pre[name].n as int,
            pre[name].edges,
        ),
        Err(GraphError::NotFound) => !pre.dom().contains(name),
        Err(GraphError::AlreadyExists) => false,
        Err(GraphError::InvalidArgument) => false,
    }
}

/// Whether some entry carries `name`.
spec fn contains_name(s: Seq<(String, Graph)>, name: Seq<char>) -> bool {
    exists|i: int| 0 <= i < s.len() && (#[trigger] s[i]).0@ == name
}

/// The position of the entry carrying `name`; meaningful when the names are
/// distinct and `name` is present.
spec fn index_of_name(s: Seq<(String, Graph)>, name: Seq<char>) -> int {
    choose|i: int| 0 <= i < s.len() && (#[trigger] s[i]).0@ == name
}

/// No two entries carry the same name.
spec fn uniq_names(s: Seq<(String, Graph)>) -> bool {
    forall|i: int, j: int|
        0 <= i < j < s.len() ==> (#[trigger] s[i]).0@ != (#[trigger] s[j]).0@
}

/// The entry sequence read as a map from name to graph contents.
spec fn seq_view(s: Seq<(String, Graph)>) -> RegView {
    Map::new(
        |name: Seq<char>| contains_name(s, name),
        |name: Seq<char>| s[index_of_name(s, name)].1@,
    )
}

/// With distinct names, the entry found for a name is the one at `i`.
proof fn lemma_index_unique(s: Seq<(String, Graph)>, name: Seq<char>, i: int)
    requires
        uniq_names(s),
        0 <= i < s.len(),
        s[i].0@ == name,
    ensures
        index_of_name(s, name) == i,
{
    assert(contains_name(s, name));
    let j = index_of_name(s, name);
    assert(0 <= j < s.len() && s[j].0@ == name);
    if j < i {
        assert(s[j].0@ != s[i].0@);
    } else if i < j {
        assert(s[i].0@ != s[j].0@);
    }
}

/// Appending an entry under a fresh name inserts it into the map view.
proof fn lemma_view_push(s: Seq<(String, Graph)>, p: (String, Graph))
    requires
        uniq_names(s),
        !contains_name(s, p.0@),
    ensures
        uniq_names(s.push(p)),
        seq_view(s.push(p)) == seq_view(s).insert(p.0@, p.1@),
{
    let s2 = s.push(p);
    assert forall|i: int, j: int| 0 <= i < j < s2.len() implies (#[trigger] s2[i]).0@ != (
    #[trigger] s2[j]).0@ by {
        if j < s.len() {
            assert(s[i].0@ != s[j].0@);
        } else {
            assert(s2[j] == p);
            assert(s2[i] == s[i]);
            if s[i].0@ == p.0@ {
                assert(contains_name(s, p.0@));
            }
        }
    }
    let m1 = seq_view(s2);
    let m2 = seq_view(s).insert(p.0@, p.1@);
    assert forall|x: Seq<char>| #[trigger] m1.dom().contains(x) implies m2.dom().contains(x)
        && m1[x] == m2[x] by {
        let k = choose|k: int| 0 <= k < s2.len() && (#[trigger] s2[k]).0@ == x;
        if k == s.len() {
            assert(x == p.0@);
            lemma_index_unique(s2, x, s.len() as int);
        } else {
            assert(s[k].0@ == x);
            assert(contains_name(s, x));
            if x == p.0@ {
                assert(false);
            }
            lemma_index_unique(s2, x, k);
            lemma_index_unique(s, x, k);
        }
    }
    assert forall|x: Seq<char>| #[trigger] m2.dom().contains(x) implies m1.dom().contains(x) by {
        if x == p.0@ {
            assert(s2[s.len() as int].0@ == x);
        } else {
            let k = choose|k: int| 0 <= k < s.len() && (#[trigger] s[k]).0@ == x;
            assert(s2[k].0@ == x);
        }
    }
    assert(m1 =~= m2);
}

/// Removing the entry at `i` removes exactly its name from the map view.
proof fn lemma_view_remove(s: Seq<(String, Graph)>, i: int)
    requires
        uniq_names(s),
        0 <= i < s.len(),
    ensures
        uniq_names(s.remove(i)),
        !contains_name(s.remove(i), s[i].0@),
        seq_view(s.remove(i)) == seq_view(s).remove(s[i].0@),
{
    let s3 = s.remove(i);
    assert forall|a: int, b: int| 0 <= a < b < s3.len() implies (#[trigger] s3[a]).0@ != (
    #[trigger] s3[b]).0@ by {
        let a2 = if a < i {
            a
        } else {
            a + 1
        };
        let b2 = if b < i {
            b
        } else {
            b + 1
        };
        assert(s3[a] == s[a2]);
        assert(s3[b] == s[b2]);
        assert(s[a2].0@ != s[b2].0@);
    }
    assert forall|k: int| 0 <= k < s3.len() implies (#[trigger] s3[k]).0@ != s[i].0@ by {
        let k2 = if k < i {
            k
        } else {
            k + 1
        };
        assert(s3[k] == s[k2]);
        if k2 < i {
            assert(s[k2].0@ != s[i].0@);
        } else {
            assert(s[i].0@ != s[k2].0@);
        }
    }
    let m1 = seq_view(s3);
    let m2 = seq_view(s).remove(s[i].0@);
    assert forall|x: Seq<char>| #[trigger] m1.dom().contains(x) implies m2.dom().contains(x)
        && m1[x] == m2[x] by {
        let k = choose|k: int| 0 <= k < s3.len() && (#[trigger] s3[k]).0@ == x;
        let k2 = if k < i {
            k
        } else {
            k + 1
        };
        assert(s3[k] == s[k2]);
        assert(contains_name(s, x));
        assert(x != s[i].0@);
        lemma_index_unique(s3, x, k);
        lemma_index_unique(s, x, k2);
    }
    assert forall|x: Seq<char>| #[trigger] m2.dom().contains(x) implies m1.dom().contains(x) by {
        let k2 = choose|k2: int| 0 <= k2 < s.len() && (#[trigger] s[k2]).0@ == x;
        assert(k2 != i);
        let k = if k2 < i {
            k2
        } else {
            k2 - 1
        };
        assert(s3[k] == s[k2]);
        assert(contains_name(s3, x));
    }
    assert(m1 =~= m2);
}

/// The in-memory store of all named graphs.
pub struct Registry {
    entries: Vec<(String, Graph)>,
}

impl View for Registry {
    type V = RegView;

    closed spec fn view(&self) -> RegView {
        seq_view(self.entries@)
    }
}

impl Registry {
    /// The registry's invariant: at most one graph per name, each graph
    /// well formed.
    pub closed spec fn wf(&self) -> bool {
        &&& uniq_names(self.entries@)
        &&& forall|i: int|
            0 <= i < self.entries@.len() ==> (#[trigger] self.entries@[i]).1.wf()
    }

    /// An empty registry, as at service start.
    pub fn new() -> (r: Registry)
        ensures
            r.wf(),
            r@ == Map::<Seq<char>, GraphView>::empty(),
    {
        let r = Registry { entries: Vec::new() };
        proof {
            assert(r@ =~= Map::<Seq<char>, GraphView>::empty());
        }
        r
    }

    /// The entry carrying `name`, if one is live.
    fn find_index(&self, name: &String) -> (r: Option<usize>)
        requires
            self.wf(),
        ensures
            match r {
                Some(i) => i < self.entries@.len() && self.entries@[i as int].0@ == name@
                    && self@.dom().contains(name@) && self@[name@] == self.entries@[i as int].1@,
                None => !self@.dom().contains(name@),
            },
    {
        let m = self.entries.len();
        let mut i: usize = 0;
        while i < m
            invariant
                self.wf(),
                m == self.entries@.len(),
                i <= m,
                forall|k: int| 0 <= k < i ==> (#[trigger] self.entries@[k]).0@ != name@,
            decreases m - i,
        {
            if self.entries[i].0 == *name {
                proof {
                    lemma_index_unique(self.entries@, name@, i as int);
                }
                return Some(i);
            }
            i += 1;
        }
        proof {
            if contains_name(self.entries@, name@) {
                let k = choose|k: int|
                    0 <= k < self.entries@.len() && (#[trigger] self.entries@[k]).0@ == name@;
                assert(false);
            }
        }
        None
    }

    /// A private copy of the named graph, taken so that the spanning-tree
    /// computation can run after the registry is released.
    pub fn snapshot(&self, name: &String) -> (r: Result<Graph, GraphError>)
        requires
            self.wf(),
        ensures
            match r {
                Ok(g) => self@.dom().contains(name@) && g.wf() && g@ == self@[name@],
                Err(e) => e == GraphError::NotFound && !self@.dom().contains(name@),
            },
    {
        match self.find_index(name) {
            Some(i) => {
                proof {
                    assert(self.entries@[i as int].1.wf());
                }
                Ok(self.entries[i].1.duplicate())
            },
            None => Err(GraphError::NotFound),
        }
    }
}

/// The service surface: one method per remote call, offered by the
/// registry.
pub trait GraphicalWorld {
    /// The contents the implementation holds, read as a map from name to
    /// graph.
    spec fn graphs(&self) -> RegView;

    /// The implementation's internal invariant.
    spec fn inv(&self) -> bool;

    /// Creates a new graph under `name` with vertices `1..=n` and no edges.
    /// Refused with `AlreadyExists` on a live name, `InvalidArgument` on a
    /// vertex count of zero or above the ceiling.
    fn add_graph(&mut self, name: String, n: u32) -> (r: Result<(), GraphError>)
        requires
            old(self).inv(),
        ensures
            final(self).inv(),
            add_graph_post(old(self).graphs(), final(self).graphs(), name@, n, r),
    ;

    /// Adds one edge to the named graph. A self-loop is ignored and the call
    /// succeeds unchanged; an unknown name is `NotFound`; an endpoint
    /// outside `1..=n` is `InvalidArgument`.
    fn add_edge(&mut self, name: String, u: u32, v: u32, w: u32) -> (r: Result<(), GraphError>)
        requires
            old(self).inv(),
        ensures
            final(self).inv(),
            add_edge_post(old(self).graphs(), final(self).graphs(), name@, u, v, w, r),
    ;

    /// The weight of the named graph's minimum spanning tree, `-1` while the
    /// graph is not connected, `NotFound` on an unknown name.
    fn get_mst(&self, name: String) -> (r: Result<i64, GraphError>)
        requires
            self.inv(),
        ensures
            get_mst_post(self.graphs(), name@, r),
    ;

    /// Removes the named graph; a name not held is a quiet no-op. The name
    /// is free for reuse afterwards.
    fn clear_graph(&mut self, name: String)
        requires
            old(self).inv(),
        ensures
            final(self).inv(),
            final(self).graphs() == old(self).graphs().remove(name@),
    ;
}

impl GraphicalWorld for Registry {
    open spec fn graphs(&self) -> RegView {
        self@
    }

    open spec fn inv(&self) -> bool {
        self.wf()
    }

    fn add_graph(&mut self, name: String, n: u32) -> (r: Result<(), GraphError>) {
        if n < 1 || n > MAX_VERTICES {
            return Err(GraphError::InvalidArgument);
        }
        if self.find_index(&name).is_some() {
            return Err(GraphError::AlreadyExists);
        }
        let g = Graph::new(n);
        proof {
            lemma_view_push(self.entries@, (name, g));
        }
        self.entries.push((name, g));
        Ok(())
    }

    fn add_edge(&mut self, name: String, u: u32, v: u32, w: u32) -> (r: Result<(), GraphError>) {
        if u == v {
            return Ok(());
        }
        let i = match self.find_index(&name) {
            None => {
                return Err(GraphError::NotFound);
            },
            Some(i) => i,
        };
        let n = self.entries[i].1.vertex_count();
        if u < 1 || u > n || v < 1 || v > n {
            return Err(GraphError::InvalidArgument);
        }
        let ghost pre = self@;
        proof {
            lemma_view_remove(self.entries@, i as int);
        }
        let mut entry = self.entries.remove(i);
        entry.1.insert_edge(u, v, w);
        proof {
            lemma_view_push(self.entries@, entry);
        }
        let ghost gv = entry.1@;
        self.entries.push(entry);
        proof {
            assert(self@ =~= pre.insert(name@, gv));
        }
        Ok(())
    }

    fn get_mst(&self, name: String) -> (r: Result<i64, GraphError>) {
        match self.snapshot(&name) {
            Ok(g) => Ok(g.mst()),
            Err(e) => Err(e),
        }
    }

    fn clear_graph(&mut self, name: String) {
        match self.find_index(&name) {
            Some(i) => {
                proof {
                    lemma_view_remove(self.entries@, i as int);
                }
                let removed = self.entries.remove(i);
                proof {
                    assert(self@ =~= old(self)@.remove(name@));
                }
            },
            None => {
                proof {
                    assert(self@ =~= old(self)@.remove(name@));
                }
            },
        }
    }
}

/// Adding an edge a second time leaves the graph exactly as the first
/// addition left it: the edge set carries each triple once.
pub proof fn lemma_add_edge_idempotent(g: GraphView, u: u32, v: u32, w: u32)
    requires
        sorted_edges(g.edges),
    ensures
        graph_with_edge(graph_with_edge(g, u, v, w), u, v, w) == graph_with_edge(g, u, v, w),
{
    crate::edges::lemma_insert_sorted_idempotent(g.edges, normal_edge(u, v, w));
}

/// Clearing a name and then creating a graph under it leaves the registry
/// exactly as if the name had never been used: the insert after the removal
/// is the same map as the insert alone.
pub proof fn lemma_clear_then_add_graph(pre: RegView, name: Seq<char>, g: GraphView)
    ensures
        pre.remove(name).insert(name, g) == pre.insert(name, g),
{
    assert(pre.remove(name).insert(name, g) =~= pre.insert(name, g));
}

} // verus!
