//! The deduplicated, weight-ordered edge set of one graph.
//!
//! Edges are triples `(weight, lower endpoint, higher endpoint)` kept in
//! strictly ascending order, so that walking the set front to back yields
//! edges exactly in the order Kruskal's algorithm consumes them.

use vstd::prelude::*;

verus! {

/// One weighted edge, stored as `(weight, lower endpoint, higher endpoint)`.
pub type Edge = (u32, u32, u32);

/// The strict order on edges: by weight first, then by the endpoint pair.
pub open spec fn edge_lt(a: Edge, b: Edge) -> bool {
    ||| a.0 < b.0
    ||| (a.0 == b.0 && a.1 < b.1)
    ||| (a.0 == b.0 && a.1 == b.1 && a.2 < b.2)
}

/// A sequence that is strictly ascending in `edge_lt`; being strict, it
/// holds no duplicate triples.
pub open spec fn sorted_edges(s: Seq<Edge>) -> bool {
    forall|i: int, j: int| 0 <= i < j < s.len() ==> edge_lt(s[i], s[j])
}

/// Where a new triple lands in a sorted sequence: before the first element
/// it does not exceed. A triple already present leaves the sequence as it is.
pub open spec fn insert_sorted(s: Seq<Edge>, e: Edge) -> Seq<Edge>
    decreases s.len(),
{
    if s.len() == 0 {
        seq![e]
    } else if edge_lt(s[0], e) {
        seq![s[0]] + insert_sorted(s.drop_first(), e)
    } else if s[0] == e {
        s
    } else {
        seq![e] + s
    }
}

/// `edge_lt` is a strict total order: two distinct edges compare one way.
pub proof fn lemma_edge_lt_total(a: Edge, b: Edge)
    ensures
        a != b ==> (edge_lt(a, b) <==> !edge_lt(b, a)),
        !(edge_lt(a, b) && edge_lt(b, a)),
{
}

/// Inserting lands the new triple at its position `i`, shifting the rest.
pub proof fn lemma_insert_sorted_at(s: Seq<Edge>, e: Edge, i: int)
    requires
        sorted_edges(s),
        0 <= i <= s.len(),
        forall|k: int| 0 <= k < i ==> edge_lt(s[k], e),
        i < s.len() ==> !edge_lt(s[i], e) && s[i] != e,
    ensures
        insert_sorted(s, e) == s.take(i) + seq![e] + s.skip(i),
    decreases i,
{
    if i == 0 {
        if s.len() == 0 {
            assert(insert_sorted(s, e) =~= s.take(0) + seq![e] + s.skip(0));
        } else {
            assert(!edge_lt(s[0], e) && s[0] != e);
            assert(insert_sorted(s, e) =~= s.take(0) + seq![e] + s.skip(0));
        }
    } else {
        assert(edge_lt(s[0], e));
        let t = s.drop_first();
        assert(sorted_edges(t));
        assert(forall|k: int| 0 <= k < i - 1 ==> edge_lt(t[k], e));
        lemma_insert_sorted_at(t, e, i - 1);
        assert(insert_sorted(s, e) =~= s.take(i) + seq![e] + s.skip(i));
    }
}

/// A triple already present at position `i` leaves the sequence unchanged.
proof fn lemma_insert_sorted_present(s: Seq<Edge>, e: Edge, i: int)
    requires
        sorted_edges(s),
        0 <= i < s.len(),
        s[i] == e,
        forall|k: int| 0 <= k < i ==> edge_lt(s[k], e),
    ensures
        insert_sorted(s, e) == s,
    decreases i,
{
    if i == 0 {
        assert(!edge_lt(s[0], e));
        assert(insert_sorted(s, e) == s);
    } else {
        assert(edge_lt(s[0], e));
        let t = s.drop_first();
        lemma_insert_sorted_present(t, e, i - 1);
        assert(insert_sorted(s, e) =~= s);
    }
}

/// Insertion keeps the sequence strictly sorted.
pub proof fn lemma_insert_sorted_sorted(s: Seq<Edge>, e: Edge)
    requires
        sorted_edges(s),
    ensures
        sorted_edges(insert_sorted(s, e)),
    decreases s.len(),
{
    if s.len() == 0 {
    } else if edge_lt(s[0], e) {
        let t = s.drop_first();
        lemma_insert_sorted_sorted(t, e);
        let r = insert_sorted(s, e);
        assert(r == seq![s[0]] + insert_sorted(t, e));
        lemma_insert_sorted_to_set(t, e);
        assert forall|i: int, j: int| 0 <= i < j < r.len() implies edge_lt(r[i], r[j]) by {
            if i == 0 {
                let x = r[j];
                assert(insert_sorted(t, e).to_set().contains(x));
                assert(t.to_set().insert(e).contains(x));
                if x == e {
                } else {
                    assert(t.to_set().contains(x));
                    let k = choose|k: int| 0 <= k < t.len() && t[k] == x;
                    assert(edge_lt(s[0], t[k]));
                }
            } else {
                assert(edge_lt(insert_sorted(t, e)[i - 1], insert_sorted(t, e)[j - 1]));
            }
        }
    } else if s[0] == e {
    } else {
        let r = seq![e] + s;
        assert forall|i: int, j: int| 0 <= i < j < r.len() implies edge_lt(r[i], r[j]) by {
            if i == 0 {
                lemma_edge_lt_total(s[0], e);
                if j == 1 {
                } else {
                    assert(edge_lt(s[0], s[j - 1]));
                }
            } else {
                assert(edge_lt(s[i - 1], s[j - 1]));
            }
        }
    }
}

/// As a set of triples, insertion adds exactly the new triple.
pub proof fn lemma_insert_sorted_to_set(s: Seq<Edge>, e: Edge)
    ensures
        insert_sorted(s, e).to_set() == s.to_set().insert(e),
    decreases s.len(),
{
    broadcast use vstd::seq_lib::group_seq_lib_default;

    if s.len() == 0 {
        let r = insert_sorted(s, e);
        assert(r == seq![e]);
        assert(r[0] == e);
        assert forall|x: Edge| r.to_set().contains(x) implies s.to_set().insert(e).contains(x) by {
            let k = choose|k: int| 0 <= k < r.len() && r[k] == x;
            assert(k == 0);
        }
        assert forall|x: Edge| s.to_set().insert(e).contains(x) implies r.to_set().contains(x) by {
            assert(x == e);
            assert(r.contains(x));
        }
        assert(r.to_set() =~= s.to_set().insert(e));
    } else if edge_lt(s[0], e) {
        let t = s.drop_first();
        lemma_insert_sorted_to_set(t, e);
        let r = insert_sorted(s, e);
        assert(r == seq![s[0]] + insert_sorted(t, e));
        assert(r.to_set() =~= s.to_set().insert(e)) by {
            assert forall|x: Edge| r.to_set().contains(x) implies s.to_set().insert(e).contains(
                x,
            ) by {
                let k = choose|k: int| 0 <= k < r.len() && r[k] == x;
                if k == 0 {
                    assert(s[0] == x);
                } else {
                    assert(insert_sorted(t, e).to_set().contains(x));
                    if x != e {
                        assert(t.to_set().contains(x));
                        let m = choose|m: int| 0 <= m < t.len() && t[m] == x;
                        assert(s[m + 1] == x);
                    }
                }
            }
            assert forall|x: Edge| s.to_set().insert(e).contains(x) implies r.to_set().contains(
                x,
            ) by {
                if x == e {
                    assert(insert_sorted(t, e).to_set().contains(e));
                    let m = choose|m: int| 0 <= m < insert_sorted(t, e).len() && insert_sorted(
                        t,
                        e,
                    )[m] == e;
                    assert(r[m + 1] == e);
                } else {
                    let k = choose|k: int| 0 <= k < s.len() && s[k] == x;
                    if k == 0 {
                        assert(r[0] == x);
                    } else {
                        assert(t[k - 1] == x);
                        assert(insert_sorted(t, e).to_set().contains(x));
                        let m = choose|m: int| 0 <= m < insert_sorted(t, e).len() && insert_sorted(
                            t,
                            e,
                        )[m] == x;
                        assert(r[m + 1] == x);
                    }
                }
            }
        }
    } else if s[0] == e {
        assert(s.to_set().contains(e));
        assert(insert_sorted(s, e).to_set() =~= s.to_set().insert(e));
    } else {
        assert(insert_sorted(s, e) == seq![e] + s);
        assert(insert_sorted(s, e).to_set() =~= s.to_set().insert(e)) by {
            assert forall|x: Edge| (seq![e] + s).to_set().contains(x) implies s.to_set().insert(
                e,
            ).contains(x) by {
                let k = choose|k: int| 0 <= k < (seq![e] + s).len() && (seq![e] + s)[k] == x;
                if k > 0 {
                    assert(s[k - 1] == x);
                }
            }
            assert forall|x: Edge| s.to_set().insert(e).contains(x) implies (seq![e]
                + s).to_set().contains(x) by {
                if x == e {
                    assert((seq![e] + s)[0] == x);
                } else {
                    let k = choose|k: int| 0 <= k < s.len() && s[k] == x;
                    assert((seq![e] + s)[k + 1] == x);
                }
            }
        }
    }
}

/// Inserting a triple that is already present changes nothing; in
/// particular a second identical insertion is idempotent.
pub proof fn lemma_insert_sorted_member(s: Seq<Edge>, e: Edge)
    requires
        sorted_edges(s),
        s.to_set().contains(e),
    ensures
        insert_sorted(s, e) == s,
{
    let i = choose|i: int| 0 <= i < s.len() && s[i] == e;
    assert forall|k: int| 0 <= k < i implies edge_lt(s[k], e) by {
        assert(edge_lt(s[k], s[i]));
    }
    lemma_insert_sorted_present(s, e, i);
}

/// Adding an edge a second time is idempotent: the set of triples, and
/// with it the stored sequence, is what the first insertion left.
pub proof fn lemma_insert_sorted_idempotent(s: Seq<Edge>, e: Edge)
    requires
        sorted_edges(s),
    ensures
        insert_sorted(insert_sorted(s, e), e) == insert_sorted(s, e),
{
    lemma_insert_sorted_sorted(s, e);
    lemma_insert_sorted_to_set(s, e);
    assert(insert_sorted(s, e).to_set().contains(e));
    lemma_insert_sorted_member(insert_sorted(s, e), e);
}

/// Two strictly sorted sequences holding the same triples are the same
/// sequence: the order of an edge set is determined by its contents.
pub proof fn lemma_sorted_unique(s1: Seq<Edge>, s2: Seq<Edge>)
    requires
        sorted_edges(s1),
        sorted_edges(s2),
        s1.to_set() == s2.to_set(),
    ensures
        s1 == s2,
    decreases s1.len(),
{
    broadcast use vstd::seq_lib::group_seq_lib_default;

    if s1.len() == 0 {
        if s2.len() > 0 {
            assert(s2.to_set().contains(s2[0]));
            assert(s1.to_set().contains(s2[0]));
            assert(false);
        }
        assert(s1 =~= s2);
    } else {
        assert(s1.to_set().contains(s1[0]));
        assert(s2.to_set().contains(s1[0]));
        assert(s2.len() > 0);
        assert(s2.to_set().contains(s2[0]));
        assert(s1.to_set().contains(s2[0]));
        // The heads agree: each head is the least element of the shared set.
        let i = choose|i: int| 0 <= i < s2.len() && s2[i] == s1[0];
        let j = choose|j: int| 0 <= j < s1.len() && s1[j] == s2[0];
        if i > 0 {
            assert(edge_lt(s2[0], s1[0]));
            if j > 0 {
                assert(edge_lt(s1[0], s1[j]));
            }
            lemma_edge_lt_total(s1[0], s2[0]);
            assert(false);
        }
        assert(s1[0] == s2[0]);
        let t1 = s1.drop_first();
        let t2 = s2.drop_first();
        assert(t1.to_set() =~= t2.to_set()) by {
            assert forall|x: Edge| t1.to_set().contains(x) implies t2.to_set().contains(x) by {
                let k = choose|k: int| 0 <= k < t1.len() && t1[k] == x;
                assert(s1[k + 1] == x);
                assert(edge_lt(s1[0], x));
                assert(s2.to_set().contains(x));
                let m = choose|m: int| 0 <= m < s2.len() && s2[m] == x;
                lemma_edge_lt_total(s2[0], x);
                assert(m != 0);
                assert(t2[m - 1] == x);
            }
            assert forall|x: Edge| t2.to_set().contains(x) implies t1.to_set().contains(x) by {
                let k = choose|k: int| 0 <= k < t2.len() && t2[k] == x;
                assert(s2[k + 1] == x);
                assert(edge_lt(s2[0], x));
                assert(s1.to_set().contains(x));
                let m = choose|m: int| 0 <= m < s1.len() && s1[m] == x;
                lemma_edge_lt_total(s1[0], x);
                assert(m != 0);
                assert(t1[m - 1] == x);
            }
        }
        lemma_sorted_unique(t1, t2);
        assert(s1.len() == s2.len());
        assert forall|k: int| 0 <= k < s1.len() implies s1[k] == s2[k] by {
            if k > 0 {
                assert(t1[k - 1] == t2[k - 1]);
            }
        }
        assert(s1 =~= s2);
    }
}

/// The deduplicated edge set of one graph, kept in ascending order.
pub struct EdgeSet {
    edges: Vec<Edge>,
}

impl View for EdgeSet {
    type V = Seq<Edge>;

    closed spec fn view(&self) -> Seq<Edge> {
        self.edges@
    }
}

impl EdgeSet {
    /// The set's one internal invariant: strictly ascending order.
    pub open spec fn wf(&self) -> bool {
        sorted_edges(self@)
    }

    /// An empty edge set.
    pub fn new() -> (r: EdgeSet)
        ensures
            r@ == Seq::<Edge>::empty(),
            r.wf(),
    {
        EdgeSet { edges: Vec::new() }
    }

    /// How many distinct triples the set holds.
    pub fn len(&self) -> (r: usize)
        ensures
            r == self@.len(),
    {
        self.edges.len()
    }

    /// The triple at position `i` in ascending order.
    pub fn get(&self, i: usize) -> (r: Edge)
        requires
            i < self@.len(),
        ensures
            r == self@[i as int],
    {
        self.edges[i]
    }

    /// Inserts a triple at its ordered position; a triple already present
    /// leaves the set unchanged.
    pub fn insert(&mut self, e: Edge)
        requires
            old(self).wf(),
        ensures
            final(self).wf(),
            final(self)@ == insert_sorted(old(self)@, e),
            final(self)@.to_set() == old(self)@.to_set().insert(e),
    {
        let ghost s = self@;
        let n = self.edges.len();
        let mut i: usize = 0;
        while i < n && edge_before(&self.edges[i], &e)
            invariant
                n == self@.len(),
                0 <= i <= n,
                self@ == s,
                forall|k: int| 0 <= k < i ==> edge_lt(s[k], e),
            decreases n - i,
        {
            i += 1;
        }
        if i < n && edge_eq(&self.edges[i], &e) {
            proof {
                lemma_insert_sorted_present(s, e, i as int);
                assert(s.to_set().contains(e));
                assert(s.to_set() =~= s.to_set().insert(e));
            }
        } else {
            self.edges.insert(i, e);
            proof {
                lemma_insert_sorted_at(s, e, i as int);
                assert(self@ =~= s.take(i as int) + seq![e] + s.skip(i as int));
                lemma_insert_sorted_sorted(s, e);
                lemma_insert_sorted_to_set(s, e);
            }
        }
    }
}

/// The executable form of `edge_lt`.
fn edge_before(a: &Edge, b: &Edge) -> (r: bool)
    ensures
        r == edge_lt(*a, *b),
{
    a.0 < b.0 || (a.0 == b.0 && (a.1 < b.1 || (a.1 == b.1 && a.2 < b.2)))
}

/// Field-wise equality of two triples.
fn edge_eq(a: &Edge, b: &Edge) -> (r: bool)
    ensures
        r == (*a == *b),
{
    a.0 == b.0 && a.1 == b.1 && a.2 == b.2
}

} // verus!
