//! Disjoint-set union over the vertices `1..=n`, with iterative path
//! compression and union by size, and the Kruskal driver built on it.
//!
//! The structure's abstract state is a partition of `1..=n`, carried as a
//! ghost map from vertex to root. A ghost rank map, strictly decreasing
//! along parent links, witnesses that the parent forest is acyclic and
//! bounds the walks to the root.

use vstd::prelude::*;

use crate::edges::EdgeSet;
use crate::mst::all_connected;
use crate::mst::equiv_partition;
use crate::mst::init_rep;
use crate::mst::kruskal_rep;
use crate::mst::kruskal_weight;
use crate::mst::lemma_kruskal_take_step;
use crate::mst::lemma_take_all;
use crate::mst::lemma_union_preserves_equiv;
use crate::mst::mst_weight;
use crate::mst::union_rep;
use vstd::set_lib::lemma_int_range;
use vstd::set_lib::lemma_len_subset;
use vstd::set_lib::lemma_set_disjoint_lens;
use vstd::set_lib::set_int_range;

verus! {

/// The vertices of `1..=n` that a partition maps to themselves: one for
/// each component.
spec fn roots_set(rep: Map<int, int>, n: int) -> Set<int> {
    Set::new(|v: int| 1 <= v <= n && rep[v] == v)
}

/// The component of root `r`: the vertices of `1..=n` the partition maps
/// to `r`.
spec fn class_of(rep: Map<int, int>, n: int, r: int) -> Set<int> {
    Set::new(|v: int| 1 <= v <= n && rep[v] == r)
}

/// A set of vertices of `1..=n` is finite and holds at most `n` elements.
proof fn lemma_vertex_set_len(s: Set<int>, n: int)
    requires
        n >= 0,
        forall|v: int| s.contains(v) ==> 1 <= v <= n,
    ensures
        s.finite(),
        s.len() <= n,
{
    lemma_int_range(1, n + 1);
    assert(s.subset_of(set_int_range(1, n + 1)));
    lemma_len_subset(s, set_int_range(1, n + 1));
}

/// Union-find over the vertices `1..=n`; index `0` is unused.
pub struct DSU {
    parents: Vec<usize>,
    sizes: Vec<usize>,
    n: usize,
    rep: Ghost<Map<int, int>>,
    rank: Ghost<Map<int, int>>,
}

impl DSU {
    /// The partition: each vertex of `1..=n` mapped to its root.
    pub closed spec fn repm(&self) -> Map<int, int> {
        self.rep@
    }

    /// The vertex count the structure was built for.
    pub closed spec fn n_spec(&self) -> int {
        self.n as int
    }

    /// The internal invariant: parent links stay in `1..=n`, agree with the
    /// ghost partition, form a rank-decreasing forest, and each root's size
    /// entry counts its component exactly.
    pub closed spec fn wf(&self) -> bool {
        &&& 1 <= self.n
        &&& self.n < usize::MAX
        &&& self.parents@.len() == self.n + 1
        &&& self.sizes@.len() == self.n + 1
        &&& forall|v: int| 1 <= v <= self.n ==> 1 <= #[trigger] self.parents@[v] <= self.n
        &&& forall|v: int| 1 <= v <= self.n ==> 1 <= #[trigger] self.rep@[v] <= self.n
        &&& forall|v: int|
            1 <= v <= self.n ==> #[trigger] self.rep@[self.rep@[v]] == self.rep@[v]
        &&& forall|v: int|
            1 <= v <= self.n ==> ((#[trigger] self.parents@[v]) == v <==> self.rep@[v] == v)
        &&& forall|v: int|
            1 <= v <= self.n ==> #[trigger] self.rep@[self.parents@[v] as int] == self.rep@[v]
        &&& forall|v: int| 1 <= v <= self.n ==> #[trigger] self.rank@[v] >= 0
        &&& forall|v: int|
            1 <= v <= self.n && (#[trigger] self.parents@[v]) != v ==> self.rank@[self.parents@[v] as int]
                < self.rank@[v]
        &&& forall|v: int|
            1 <= v <= self.n && (#[trigger] self.rep@[v]) != v ==> self.rank@[self.rep@[v]]
                < self.rank@[v]
        &&& forall|r: int|
            1 <= r <= self.n && (#[trigger] self.rep@[r]) == r ==> self.sizes@[r] == class_of(
                self.rep@,
                self.n as int,
                r,
            ).len()
    }

    /// Every vertex still its own component, as after construction.
    pub open spec fn is_fresh(&self) -> bool {
        forall|v: int| 1 <= v <= self.n_spec() ==> #[trigger] self.repm()[v] == v
    }

    /// A structure for the vertices `1..=n`, each in its own singleton set.
    pub fn new(n: usize) -> (r: DSU)
        requires
            1 <= n,
            n < usize::MAX,
        ensures
            r.wf(),
            r.n_spec() == n,
            r.is_fresh(),
    {
        let mut parents: Vec<usize> = Vec::new();
        let mut i: usize = 0;
        while i <= n
            invariant
                i <= n + 1,
                n < usize::MAX,
                parents@.len() == i,
                forall|k: int| 0 <= k < i ==> #[trigger] parents@[k] == k,
            decreases n + 1 - i,
        {
            parents.push(i);
            i += 1;
        }
        let mut sizes: Vec<usize> = Vec::new();
        let mut j: usize = 0;
        while j <= n
            invariant
                j <= n + 1,
                n < usize::MAX,
                sizes@.len() == j,
                forall|k: int| 0 <= k < j ==> #[trigger] sizes@[k] == 1,
            decreases n + 1 - j,
        {
            sizes.push(1);
            j += 1;
        }
        let r = DSU {
            parents,
            sizes,
            n,
            rep: Ghost(Map::new(|v: int| true, |v: int| v)),
            rank: Ghost(Map::new(|v: int| true, |v: int| 0)),
        };
        proof {
            assert forall|q: int| 1 <= q <= n && r.rep@[q] == q implies r.sizes@[q] == class_of(
                r.rep@,
                n as int,
                q,
            ).len() by {
                assert(class_of(r.rep@, n as int, q) =~= Set::empty().insert(q));
            }
        }
        r
    }

    /// The root of `node`'s component; every vertex on the walk is then
    /// re-linked straight to that root, which changes no component.
    fn find(&mut self, node: usize) -> (root: usize)
        requires
            old(self).wf(),
            1 <= node <= old(self).n,
        ensures
            final(self).wf(),
            final(self).rep@ == old(self).rep@,
            final(self).rank@ == old(self).rank@,
            final(self).sizes@ == old(self).sizes@,
            final(self).n == old(self).n,
            root as int == old(self).rep@[node as int],
    {
        let ghost r0 = self.rep@;
        let mut cur = node;
        while self.parents[cur] != cur
            invariant
                self.wf(),
                1 <= cur <= self.n,
                self.rep@ == r0,
                self.rep@[cur as int] == self.rep@[node as int],
                1 <= node <= self.n,
            decreases self.rank@[cur as int],
        {
            cur = self.parents[cur];
        }
        let root = cur;
        assert(self.rep@[root as int] == root as int);
        let ghost rk0 = self.rank@;
        let ghost sz0 = self.sizes@;
        let ghost n0 = self.n;
        let mut cur2 = node;
        while cur2 != root
            invariant
                self.wf(),
                self.rep@ == r0,
                self.rank@ == rk0,
                self.sizes@ == sz0,
                self.n == n0,
                1 <= cur2 <= self.n,
                1 <= root <= self.n,
                self.rep@[cur2 as int] == root as int,
                self.rep@[root as int] == root as int,
            decreases self.rank@[cur2 as int],
        {
            let next = self.parents[cur2];
            self.parents[cur2] = root;
            cur2 = next;
        }
        root
    }

    /// Joins the components of `a` and `b`, the smaller under the larger,
    /// and reports whether they were distinct — the Kruskal acceptance test.
    fn merge(&mut self, a: usize, b: usize) -> (r: bool)
        requires
            old(self).wf(),
            1 <= a <= old(self).n,
            1 <= b <= old(self).n,
        ensures
            final(self).wf(),
            final(self).n == old(self).n,
            r == (old(self).rep@[a as int] != old(self).rep@[b as int]),
            !r ==> final(self).rep@ == old(self).rep@,
            r ==> equiv_partition(
                final(self).rep@,
                union_rep(old(self).rep@, a as int, b as int),
                old(self).n as int,
            ),
            r ==> roots_set(final(self).rep@, old(self).n as int).len() == roots_set(
                old(self).rep@,
                old(self).n as int,
            ).len() - 1,
            r ==> roots_set(final(self).rep@, old(self).n as int).finite(),
            r ==> roots_set(final(self).rep@, old(self).n as int).len() >= 1,
    {
        let ghost r0 = self.rep@;
        let ghost n = self.n as int;
        let mut pa = self.find(a);
        let mut pb = self.find(b);

        if pa == pb {
            return false;
        }
        let sa = self.sizes[pa];
        let sb = self.sizes[pb];
        if sa < sb {
            let x = pa;
            pa = pb;
            pb = x;
        }
        assert(r0[pa as int] == pa as int && r0[pb as int] == pb as int);
        let sa2 = self.sizes[pa];
        let sb2 = self.sizes[pb];
        proof {
            let ca = class_of(r0, n, pa as int);
            let cb = class_of(r0, n, pb as int);
            assert(ca.disjoint(cb));
            lemma_vertex_set_len(ca, n);
            lemma_vertex_set_len(cb, n);
            lemma_set_disjoint_lens(ca, cb);
            lemma_vertex_set_len(ca + cb, n);
            assert(sa2 + sb2 == (ca + cb).len());
        }
        let total = sa2 + sb2;
        self.sizes[pa] = total;
        self.parents[pb] = pa;
        let ghost rk0 = self.rank@;
        proof {
            let rep2 = Map::new(
                |v: int| true,
                |v: int|
                    if r0[v] == pb as int {
                        pa as int
                    } else {
                        r0[v]
                    },
            );
            let rank2 = Map::new(
                |v: int| true,
                |v: int|
                    if r0[v] == pb as int {
                        rk0[v] + rk0[pa as int] + 1
                    } else {
                        rk0[v]
                    },
            );
            self.rep = Ghost(rep2);
            self.rank = Ghost(rank2);
            // Size entries still count components: the winner's component is
            // the disjoint union of the two old ones, the rest are untouched.
            assert forall|q: int| 1 <= q <= n && rep2[q] == q implies self.sizes@[q] == class_of(
                rep2,
                n,
                q,
            ).len() by {
                if q == pa as int {
                    assert(class_of(rep2, n, q) =~= class_of(r0, n, pa as int) + class_of(
                        r0,
                        n,
                        pb as int,
                    ));
                } else {
                    assert(class_of(rep2, n, q) =~= class_of(r0, n, q));
                }
            }
            assert(roots_set(rep2, n) =~= roots_set(r0, n).remove(pb as int));
            lemma_vertex_set_len(roots_set(r0, n), n);
            assert(roots_set(r0, n).contains(pb as int));
            vstd::set::axiom_set_remove_len(roots_set(r0, n), pb as int);
            lemma_vertex_set_len(roots_set(rep2, n), n);
            assert(roots_set(rep2, n).contains(pa as int));
            let single = Set::empty().insert(pa as int);
            vstd::set::axiom_set_insert_len(Set::<int>::empty(), pa as int);
            assert(single.len() == 1);
            assert(single.subset_of(roots_set(rep2, n)));
            lemma_len_subset(single, roots_set(rep2, n));
        }
        true
    }

    /// Whether every vertex shares vertex `1`'s component.
    fn is_connected(&mut self) -> (r: bool)
        requires
            old(self).wf(),
        ensures
            final(self).wf(),
            final(self).rep@ == old(self).rep@,
            final(self).sizes@ == old(self).sizes@,
            final(self).n == old(self).n,
            r == all_connected(old(self).rep@, old(self).n as int),
    {
        let parent = self.find(1);
        let mut i: usize = 2;
        while i <= self.n
            invariant
                self.wf(),
                self.rep@ == old(self).rep@,
                self.sizes@ == old(self).sizes@,
                self.n == old(self).n,
                2 <= i,
                i <= self.n + 1,
                parent as int == old(self).rep@[1],
                forall|v: int| 1 <= v < i ==> #[trigger] old(self).rep@[v] == old(self).rep@[1],
            decreases self.n + 1 - i,
        {
            if self.find(i) != parent {
                assert(old(self).rep@[i as int] != old(self).rep@[1]);
                assert(!all_connected(old(self).rep@, old(self).n as int));
                return false;
            }
            i += 1;
        }
        true
    }

    /// Runs Kruskal's algorithm over the ascending edge set against this
    /// fresh structure: the weight of a minimum spanning tree, or `-1` if
    /// the edges do not connect all of `1..=n`.
    pub fn get_mst(&mut self, edges: &EdgeSet) -> (r: i64)
        requires
            old(self).wf(),
            old(self).is_fresh(),
            old(self).n_spec() <= 0x7fff_ffff,
            edges.wf(),
            forall|i: int|
                0 <= i < edges@.len() ==> 1 <= (#[trigger] edges@[i]).1 as int
                    <= old(self).n_spec() && 1 <= edges@[i].2 as int <= old(self).n_spec(),
        ensures
            r as int == mst_weight(old(self).n_spec(), edges@),
    {
        let ghost n = self.n as int;
        let ghost s = edges@;
        let mut weight: u64 = 0;
        let m = edges.len();
        let mut i: usize = 0;
        proof {
            assert(s.take(0).len() == 0);
            assert(kruskal_rep(init_rep(), s.take(0)) == init_rep());
            assert forall|v: int| 1 <= v <= n implies self.rep@[v] == v by {
                assert(self.repm()[v] == v);
            }
            assert(roots_set(self.rep@, n) =~= set_int_range(1, n + 1));
            lemma_int_range(1, n + 1);
            assert forall|u: int, v: int| 1 <= u <= n && 1 <= v <= n implies ((self.rep@[u]
                == self.rep@[v]) <==> (init_rep()[u] == init_rep()[v])) by {
                assert(self.rep@[u] == u);
                assert(self.rep@[v] == v);
                assert(init_rep()[u] == u);
                assert(init_rep()[v] == v);
            }
            assert(equiv_partition(self.rep@, kruskal_rep(init_rep(), s.take(0)), n));
        }
        while i < m
            invariant
                self.wf(),
                self.n as int == n,
                1 <= n <= 0x7fff_ffff,
                edges.wf(),
                s == edges@,
                m == s.len(),
                i <= m,
                forall|k: int|
                    0 <= k < s.len() ==> 1 <= (#[trigger] s[k]).1 as int <= n && 1 <= s[k].2 as int
                        <= n,
                equiv_partition(self.rep@, kruskal_rep(init_rep(), s.take(i as int)), n),
                weight as int == kruskal_weight(init_rep(), s.take(i as int)),
                roots_set(self.rep@, n).finite(),
                roots_set(self.rep@, n).len() >= 1,
                weight as int <= (n - roots_set(self.rep@, n).len()) * 0xffff_ffff,
            decreases m - i,
        {
            let e = edges.get(i);
            let ghost rep_before = self.rep@;
            let ghost cur = kruskal_rep(init_rep(), s.take(i as int));
            let ghost roots_before = roots_set(self.rep@, n);
            let merged = self.merge(e.1 as usize, e.2 as usize);
            proof {
                lemma_kruskal_take_step(init_rep(), s, i as int);
                assert((rep_before[e.1 as int] == rep_before[e.2 as int]) <==> (cur[e.1 as int]
                    == cur[e.2 as int]));
                if merged {
                    lemma_union_preserves_equiv(rep_before, cur, n, e.1 as int, e.2 as int);
                    assert(kruskal_rep(init_rep(), s.take(i + 1)) == union_rep(
                        cur,
                        e.1 as int,
                        e.2 as int,
                    ));
                    let u1 = union_rep(rep_before, e.1 as int, e.2 as int);
                    let u2 = union_rep(cur, e.1 as int, e.2 as int);
                    assert forall|x: int, y: int| 1 <= x <= n && 1 <= y <= n implies ((
                    self.rep@[x] == self.rep@[y]) <==> (u2[x] == u2[y])) by {
                        assert((self.rep@[x] == self.rep@[y]) <==> (u1[x] == u1[y]));
                        assert((u1[x] == u1[y]) <==> (u2[x] == u2[y]));
                    }
                    assert(equiv_partition(self.rep@, u2, n));
                    assert(roots_set(self.rep@, n).len() == roots_before.len() - 1);
                } else {
                    assert(kruskal_rep(init_rep(), s.take(i + 1)) == cur);
                }
            }
            if merged {
                assert(weight + e.0 as u64 <= u64::MAX) by {
                    assert((n - roots_set(self.rep@, n).len()) * 0xffff_ffff <= (n - 1)
                        * 0xffff_ffff) by (nonlinear_arith)
                        requires
                            roots_set(self.rep@, n).len() >= 1,
                    ;
                    assert((n - 1) * 0xffff_ffff < 0x7fff_ffff * 0xffff_ffff) by (nonlinear_arith)
                        requires
                            n <= 0x7fff_ffff,
                    ;
                }
                weight = weight + e.0 as u64;
            }
            i += 1;
        }
        proof {
            lemma_take_all(s);
        }
        let connected = self.is_connected();
        proof {
            let repf = kruskal_rep(init_rep(), s);
            assert forall|v: int| 1 <= v <= n implies ((#[trigger] self.rep@[v] == self.rep@[1])
                <==> (repf[v] == repf[1])) by {}
            assert(all_connected(self.rep@, n) == all_connected(repf, n));
        }
        if connected {
            assert(weight <= i64::MAX as u64) by {
                assert((n - roots_set(self.rep@, n).len()) * 0xffff_ffff <= (n - 1) * 0xffff_ffff)
                    by (nonlinear_arith)
                    requires
                        roots_set(self.rep@, n).len() >= 1,
                ;
                assert((n - 1) * 0xffff_ffff < 0x7fff_ffff * 0xffff_ffff) by (nonlinear_arith)
                    requires
                        n <= 0x7fff_ffff,
                ;
            }
            weight as i64
        } else {
            -1
        }
    }
}

} // verus!
