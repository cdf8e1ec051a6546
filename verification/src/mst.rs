//! The mathematical model of Kruskal's algorithm.
//!
//! A partition of the vertices is a total map from vertex to representative;
//! two vertices are joined exactly when their representatives agree. Kruskal
//! folds the ordered edge sequence over the partition, counting the weight of
//! each edge that joins two components, and yields `-1` when the final
//! partition does not connect all of `1..=n`.

use vstd::prelude::*;

use crate::edges::Edge;
use crate::edges::edge_lt;
use crate::edges::insert_sorted;
use crate::edges::lemma_insert_sorted_at;
use crate::edges::lemma_sorted_unique;
use crate::edges::sorted_edges;

verus! {

/// Every vertex its own representative: the partition of a fresh graph.
pub open spec fn init_rep() -> Map<int, int> {
    Map::new(|v: int| true, |v: int| v)
}

/// Joins `b`'s component to `a`'s: every vertex of `b`'s component is
/// relabelled with `a`'s representative.
pub open spec fn union_rep(rep: Map<int, int>, a: int, b: int) -> Map<int, int> {
    Map::new(
        |v: int| true,
        |v: int|
            if rep[v] == rep[b] {
                rep[a]
            } else {
                rep[v]
            },
    )
}

/// One Kruskal step: an edge whose endpoints are already joined is
/// rejected; otherwise its endpoints' components are merged.
pub open spec fn kruskal_step(rep: Map<int, int>, e: Edge) -> Map<int, int> {
    if rep[e.1 as int] == rep[e.2 as int] {
        rep
    } else {
        union_rep(rep, e.1 as int, e.2 as int)
    }
}

/// The partition after folding the whole edge sequence, front to back.
pub open spec fn kruskal_rep(rep: Map<int, int>, s: Seq<Edge>) -> Map<int, int>
    decreases s.len(),
{
    if s.len() == 0 {
        rep
    } else {
        kruskal_rep(kruskal_step(rep, s[0]), s.drop_first())
    }
}

/// The summed weight of the edges Kruskal accepts from the sequence.
pub open spec fn kruskal_weight(rep: Map<int, int>, s: Seq<Edge>) -> int
    decreases s.len(),
{
    if s.len() == 0 {
        0int
    } else {
        (if rep[s[0].1 as int] == rep[s[0].2 as int] {
            0int
        } else {
            s[0].0 as int
        }) + kruskal_weight(kruskal_step(rep, s[0]), s.drop_first())
    }
}

/// All of `1..=n` share one representative.
pub open spec fn all_connected(rep: Map<int, int>, n: int) -> bool {
    forall|v: int| 1 <= v <= n ==> #[trigger] rep[v] == rep[1]
}

/// The weight of a minimum spanning tree of the graph with `n` vertices and
/// the given ascending edge sequence, or `-1` when the graph is not
/// connected.
pub open spec fn mst_weight(n: int, s: Seq<Edge>) -> int {
    if all_connected(kruskal_rep(init_rep(), s), n) {
        kruskal_weight(init_rep(), s)
    } else {
        -1
    }
}

/// Two partitions that join exactly the same pairs of `1..=n`.
pub open spec fn equiv_partition(r1: Map<int, int>, r2: Map<int, int>, n: int) -> bool {
    forall|u: int, v: int|
        1 <= u <= n && 1 <= v <= n ==> ((r1[u] == r1[v]) <==> (r2[u] == r2[v]))
}

/// Folding one more edge of the sequence is one Kruskal step on the
/// partition, and adds the edge's weight exactly when it joins two
/// components.
pub proof fn lemma_kruskal_take_step(rep: Map<int, int>, s: Seq<Edge>, i: int)
    requires
        0 <= i < s.len(),
    ensures
        kruskal_rep(rep, s.take(i + 1)) == kruskal_step(kruskal_rep(rep, s.take(i)), s[i]),
        kruskal_weight(rep, s.take(i + 1)) == kruskal_weight(rep, s.take(i)) + (
        if kruskal_rep(rep, s.take(i))[s[i].1 as int] == kruskal_rep(rep, s.take(i))[s[i].2 as int] {
            0int
        } else {
            s[i].0 as int
        }),
    decreases i,
{
    if i == 0 {
        let st = kruskal_step(rep, s[0]);
        assert(s.take(1).len() == 1);
        assert(s.take(1)[0] == s[0]);
        assert(s.take(1).drop_first() =~= s.take(0));
        assert(s.take(0).len() == 0);
        assert(kruskal_rep(rep, s.take(1)) == kruskal_rep(st, s.take(1).drop_first()));
        assert(kruskal_rep(st, s.take(0)) == st);
        assert(kruskal_rep(rep, s.take(0)) == rep);
        assert(kruskal_weight(rep, s.take(1)) == (if rep[s[0].1 as int] == rep[s[0].2 as int] {
            0int
        } else {
            s[0].0 as int
        }) + kruskal_weight(st, s.take(1).drop_first()));
        assert(kruskal_weight(st, s.take(0)) == 0);
    } else {
        let r2 = kruskal_step(rep, s[0]);
        let t = s.drop_first();
        lemma_kruskal_take_step(r2, t, i - 1);
        assert(s.take(i + 1).len() == i + 1);
        assert(s.take(i).len() == i);
        assert(s.take(i + 1)[0] == s[0]);
        assert(s.take(i)[0] == s[0]);
        assert(s.take(i + 1).drop_first() =~= t.take(i));
        assert(s.take(i).drop_first() =~= t.take(i - 1));
        assert(t[i - 1] == s[i]);
        assert(kruskal_rep(rep, s.take(i + 1)) == kruskal_rep(r2, t.take(i)));
        assert(kruskal_rep(rep, s.take(i)) == kruskal_rep(r2, t.take(i - 1)));
        assert(kruskal_weight(rep, s.take(i + 1)) == (if rep[s[0].1 as int] == rep[s[0].2 as int] {
            0int
        } else {
            s[0].0 as int
        }) + kruskal_weight(r2, t.take(i)));
        assert(kruskal_weight(rep, s.take(i)) == (if rep[s[0].1 as int] == rep[s[0].2 as int] {
            0int
        } else {
            s[0].0 as int
        }) + kruskal_weight(r2, t.take(i - 1)));
    }
}

/// Taking the whole sequence is the sequence itself.
pub proof fn lemma_take_all(s: Seq<Edge>)
    ensures
        s.take(s.len() as int) == s,
{
    assert(s.take(s.len() as int) =~= s);
}

/// Partitions that join the same pairs keep doing so after merging the
/// components of the same two vertices.
pub proof fn lemma_union_preserves_equiv(
    r1: Map<int, int>,
    r2: Map<int, int>,
    n: int,
    a: int,
    b: int,
)
    requires
        equiv_partition(r1, r2, n),
        1 <= a <= n,
        1 <= b <= n,
    ensures
        equiv_partition(union_rep(r1, a, b), union_rep(r2, a, b), n),
{
    let u1 = union_rep(r1, a, b);
    let u2 = union_rep(r2, a, b);
    assert forall|u: int, v: int| 1 <= u <= n && 1 <= v <= n implies ((u1[u] == u1[v]) <==> (u2[u]
        == u2[v])) by {
        assert((r1[u] == r1[v]) <==> (r2[u] == r2[v]));
        assert((r1[u] == r1[a]) <==> (r2[u] == r2[a]));
        assert((r1[u] == r1[b]) <==> (r2[u] == r2[b]));
        assert((r1[v] == r1[a]) <==> (r2[v] == r2[a]));
        assert((r1[v] == r1[b]) <==> (r2[v] == r2[b]));
        assert((r1[a] == r1[b]) <==> (r2[a] == r2[b]));
    }
}

/// A graph with no edges has spanning-tree weight `0` when it has a single
/// vertex, and no spanning tree at all otherwise.
pub proof fn lemma_mst_weight_empty(n: int)
    requires
        n >= 1,
    ensures
        n == 1 ==> mst_weight(n, Seq::<Edge>::empty()) == 0,
        n > 1 ==> mst_weight(n, Seq::<Edge>::empty()) == -1,
{
    let s = Seq::<Edge>::empty();
    assert(kruskal_rep(init_rep(), s) == init_rep());
    if n > 1 {
        assert(init_rep()[2] != init_rep()[1]);
        assert(!all_connected(init_rep(), n));
    }
}

/// The spanning-tree weight is a function of the edge set alone: any two
/// orders of adding the same edges lead to the same ascending sequence and
/// so to the same weight.
pub proof fn lemma_mst_order_independent(n: int, s1: Seq<Edge>, s2: Seq<Edge>)
    requires
        sorted_edges(s1),
        sorted_edges(s2),
        s1.to_set() == s2.to_set(),
    ensures
        mst_weight(n, s1) == mst_weight(n, s2),
{
    lemma_sorted_unique(s1, s2);
}

/// Once the graph is connected, a further edge of strictly higher weight
/// than every present edge joins nothing new and leaves the spanning-tree
/// weight as it was.
pub proof fn lemma_higher_edge_keeps_mst(n: int, s: Seq<Edge>, e: Edge)
    requires
        sorted_edges(s),
        1 <= e.1 as int <= n,
        1 <= e.2 as int <= n,
        forall|i: int| 0 <= i < s.len() ==> s[i].0 < e.0,
        mst_weight(n, s) >= 0,
    ensures
        insert_sorted(s, e) == s.push(e),
        mst_weight(n, s.push(e)) == mst_weight(n, s),
{
    assert forall|k: int| 0 <= k < s.len() implies edge_lt(s[k], e) by {
        assert(s[k].0 < e.0);
    }
    lemma_insert_sorted_at(s, e, s.len() as int);
    assert(s.take(s.len() as int) + seq![e] + s.skip(s.len() as int) =~= s.push(e));

    let p = s.push(e);
    let rep_s = kruskal_rep(init_rep(), s);
    assert(all_connected(rep_s, n));
    lemma_kruskal_take_step(init_rep(), p, s.len() as int);
    assert(p.take(s.len() as int) =~= s);
    assert(p.take(s.len() as int + 1) =~= p);
    assert(p[s.len() as int] == e);
    // Both endpoints already share the one representative, so the new edge
    // is rejected: partition and accepted weight are unchanged.
    assert(rep_s[e.1 as int] == rep_s[1]);
    assert(rep_s[e.2 as int] == rep_s[1]);
    assert(kruskal_rep(init_rep(), p) == kruskal_step(rep_s, e));
    assert(kruskal_step(rep_s, e) == rep_s);
    assert(kruskal_weight(init_rep(), p) == kruskal_weight(init_rep(), s));
}

} // verus!
