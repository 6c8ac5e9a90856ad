//! The waits-for graph: an edge from one transaction to another says that
//! the first waits for a lock that the second holds. A cycle is a deadlock.

use vstd::prelude::*;
use crate::types::TxID;

verus! {

/// Whether `edge` leads from `w[i]` to the transaction after it.
pub open spec fn linked(edge: spec_fn(TxID, TxID) -> bool, w: Seq<TxID>, i: int) -> bool {
    edge(w[i], w[i + 1])
}

/// Whether `c` lists the transactions of a cycle in order: each has an edge
/// to the next, and the last to the first.
pub open spec fn is_cycle(edge: spec_fn(TxID, TxID) -> bool, c: Seq<TxID>) -> bool {
    &&& c.len() >= 1
    &&& forall|i: int| 0 <= i < c.len() - 1 ==> #[trigger] linked(edge, c, i)
    &&& edge(c[c.len() - 1], c[0])
}

/// Whether `w` is a walk that closes: it follows the edges through
/// transactions that all differ, until its last step leads back to one of
/// them.
pub open spec fn is_lasso(edge: spec_fn(TxID, TxID) -> bool, w: Seq<TxID>) -> bool {
    &&& w.len() >= 2
    &&& forall|i: int| 0 <= i < w.len() - 1 ==> #[trigger] linked(edge, w, i)
    &&& forall|i: int, j: int| 0 <= i < j < w.len() - 1 ==> #[trigger] w[i] != #[trigger] w[j]
    &&& exists|j: int| 0 <= j < w.len() - 1 && #[trigger] w[j] == w[w.len() - 1]
}

/// Whether `a` and `b` agree in their first `k` places.
pub open spec fn agree(a: Seq<TxID>, b: Seq<TxID>, k: int) -> bool {
    forall|i: int| 0 <= i < k ==> #[trigger] a[i] == b[i]
}

/// Whether `w` begins with `p`.
pub open spec fn begins(w: Seq<TxID>, p: Seq<TxID>) -> bool {
    p.len() <= w.len() && agree(w, p, p.len() as int)
}

/// Whether `a` comes before `b` in the order of a dictionary, or is `b`:
/// either `b` begins with `a`, or `a` has the smaller identifier at the
/// first place where they differ.
pub open spec fn lex_le(a: Seq<TxID>, b: Seq<TxID>) -> bool {
    exists|k: int|
        0 <= k <= a.len() && k <= b.len() && #[trigger] agree(a, b, k) && (k == a.len() || (k < b.len()
            && a[k] < b[k]))
}

/// Whether `w` is the first of the closing walks in the order of a
/// dictionary. A depth-first search that starts from the smallest
/// identifier and follows the edges of a transaction in the order of the
/// identifiers they lead to meets this walk before any other.
pub open spec fn is_least_lasso(edge: spec_fn(TxID, TxID) -> bool, w: Seq<TxID>) -> bool {
    is_lasso(edge, w) && forall|other: Seq<TxID>| #[trigger] is_lasso(edge, other) ==> lex_le(w, other)
}

/// The place to which the last step of the closing walk `w` leads back.
pub open spec fn closing_index(w: Seq<TxID>) -> int {
    choose|j: int| 0 <= j < w.len() - 1 && #[trigger] w[j] == w[w.len() - 1]
}

/// The cycle that the walk `w` closes.
pub open spec fn lasso_cycle(w: Seq<TxID>) -> Seq<TxID> {
    w.subrange(closing_index(w), w.len() - 1)
}

/// The cycle of a closing walk is a cycle.
pub proof fn lemma_lasso_cycle(edge: spec_fn(TxID, TxID) -> bool, w: Seq<TxID>)
    requires
        is_lasso(edge, w),
    ensures
        is_cycle(edge, lasso_cycle(w)),
{
    let j = closing_index(w);
    let c = lasso_cycle(w);
    assert forall|i: int| 0 <= i < c.len() - 1 implies #[trigger] linked(edge, c, i) by {
        assert(linked(edge, w, j + i));
    }
    assert(linked(edge, w, w.len() - 2));
}

/// A cycle can be walked as a closing walk, so a relation without closing
/// walks has no cycle.
pub proof fn lemma_cycle_has_lasso(edge: spec_fn(TxID, TxID) -> bool, c: Seq<TxID>)
    requires
        is_cycle(edge, c),
    ensures
        exists|w: Seq<TxID>| is_lasso(edge, w),
    decreases c.len(),
{
    if exists|i: int, j: int| 0 <= i < j < c.len() && c[i] == c[j] {
        let (i, j) = choose|i: int, j: int| 0 <= i < j < c.len() && c[i] == c[j];
        let shorter = c.subrange(i, j);
        assert forall|k: int| 0 <= k < shorter.len() - 1 implies #[trigger] linked(edge, shorter, k) by {
            assert(linked(edge, c, i + k));
        }
        assert(edge(shorter[shorter.len() - 1], shorter[0])) by {
            assert(linked(edge, c, j - 1));
        }
        lemma_cycle_has_lasso(edge, shorter);
    } else {
        let w = c.push(c[0]);
        assert forall|k: int| 0 <= k < w.len() - 1 implies #[trigger] linked(edge, w, k) by {
            if k < c.len() - 1 {
                assert(linked(edge, c, k));
            }
        }
        assert(w[0] == w[w.len() - 1]);
        assert(is_lasso(edge, w));
    }
}

/// The order of a dictionary has no two different firsts: the least
/// closing walk is the only one.
pub proof fn lemma_least_lasso_unique(edge: spec_fn(TxID, TxID) -> bool, a: Seq<TxID>, b: Seq<TxID>)
    requires
        is_least_lasso(edge, a),
        is_least_lasso(edge, b),
    ensures
        a == b,
{
    assert(lex_le(a, b) && lex_le(b, a));
    let k = choose|k: int|
        0 <= k <= a.len() && k <= b.len() && #[trigger] agree(a, b, k) && (k == a.len() || (k < b.len()
            && a[k] < b[k]));
    let m = choose|m: int|
        0 <= m <= b.len() && m <= a.len() && #[trigger] agree(b, a, m) && (m == b.len() || (m < a.len()
            && b[m] < a[m]));
    if k < a.len() {
        if m < b.len() {
            if k < m {
                assert(b[k] == a[k]);
            } else if m < k {
                assert(a[m] == b[m]);
            }
        } else {
            assert(b[k] == a[k]);
        }
    } else if m < b.len() {
        assert(a[m] == b[m]);
    }
    assert(a.len() == b.len());
    assert(a =~= b);
}

/// A directed graph over transaction identifiers.
pub struct WaitGraph {
    nodes: Vec<TxID>,
    edges: Vec<(usize, usize)>,
}

impl WaitGraph {
    /// Whether the graph has an edge from `a` to `b`.
    pub closed spec fn has_edge(&self, a: TxID, b: TxID) -> bool {
        exists|e: int|
            0 <= e < self.edges@.len() && self.nodes@[(#[trigger] self.edges@[e]).0 as int] == a
                && self.nodes@[self.edges@[e].1 as int] == b
    }

    /// The edges as a relation.
    pub open spec fn edge_fn(&self) -> spec_fn(TxID, TxID) -> bool {
        |a: TxID, b: TxID| self.has_edge(a, b)
    }

    /// Every node is listed once; every edge joins two nodes and is listed
    /// once, and the edges are listed in the order of the identifiers that
    /// they lead to.
    pub closed spec fn wf(&self) -> bool {
        &&& forall|i: int, j: int|
            0 <= i < j < self.nodes@.len() ==> #[trigger] self.nodes@[i] != #[trigger] self.nodes@[j]
        &&& forall|e: int|
            0 <= e < self.edges@.len() ==> (#[trigger] self.edges@[e]).0 < self.nodes@.len()
                && self.edges@[e].1 < self.nodes@.len()
        &&& forall|d: int, e: int|
            0 <= d < e < self.edges@.len() ==> (#[trigger] self.edges@[d]) != (#[trigger] self.edges@[e])
                && self.nodes@[self.edges@[d].1 as int] <= self.nodes@[self.edges@[e].1 as int]
    }

    /// The graph without edges.
    pub fn new() -> (g: WaitGraph)
        ensures
            g.wf(),
            forall|a: TxID, b: TxID| !g.has_edge(a, b),
    {
        WaitGraph { nodes: Vec::new(), edges: Vec::new() }
    }

    /// The index of the node of `t`, which is added if the graph does not
    /// have it.
    fn node_index(&mut self, t: TxID) -> (i: usize)
        requires
            old(self).wf(),
        ensures
            final(self).wf(),
            final(self).edges@ == old(self).edges@,
            old(self).nodes@.len() <= final(self).nodes@.len(),
            forall|k: int| 0 <= k < old(self).nodes@.len() ==> final(self).nodes@[k] == old(self).nodes@[k],
            i < final(self).nodes@.len(),
            final(self).nodes@[i as int] == t,
    {
        let n: usize = self.nodes.len();
        let mut i: usize = 0;
        while i < n
            invariant
                i <= n == self.nodes@.len(),
                *self == *old(self),
                self.wf(),
                forall|k: int| 0 <= k < i ==> self.nodes@[k] != t,
            decreases n - i,
        {
            if self.nodes[i] == t {
                return i;
            }
            i = i + 1;
        }
        self.nodes.push(t);
        n
    }

    /// Adds the edge from node `ia` to node `ib`, unless the graph has it,
    /// at its place in the order of the identifiers that the edges lead to.
    fn insert_edge(&mut self, ia: usize, ib: usize)
        requires
            old(self).wf(),
            ia < old(self).nodes@.len(),
            ib < old(self).nodes@.len(),
        ensures
            final(self).wf(),
            final(self).nodes == old(self).nodes,
            forall|pair: (usize, usize)|
                final(self).edges@.contains(pair) <==> old(self).edges@.contains(pair) || pair == (ia, ib),
    {
        let b: TxID = self.nodes[ib];
        let m: usize = self.edges.len();
        let mut pos: usize = 0;
        let mut present: bool = false;
        let mut e: usize = 0;
        while e < m
            invariant
                e <= m == self.edges@.len(),
                *self == *old(self),
                self.wf(),
                ib < self.nodes@.len(),
                self.nodes@[ib as int] == b,
                pos <= e,
                present <==> exists|k: int| 0 <= k < e && #[trigger] self.edges@[k] == (ia, ib),
                forall|k: int| 0 <= k < pos ==> self.nodes@[(#[trigger] self.edges@[k]).1 as int] <= b,
                forall|k: int| pos <= k < e ==> self.nodes@[(#[trigger] self.edges@[k]).1 as int] > b,
            decreases m - e,
        {
            let edge: (usize, usize) = self.edges[e];
            if edge.0 == ia && edge.1 == ib {
                present = true;
            }
            if self.nodes[edge.1] <= b {
                proof {
                    assert forall|k: int| 0 <= k < e + 1 implies self.nodes@[(#[trigger] self.edges@[k]).1 as int]
                        <= b by {
                        if k < e {
                            assert(self.edges@[k] != self.edges@[e as int] && self.nodes@[self.edges@[k].1 as int]
                                <= self.nodes@[self.edges@[e as int].1 as int]);
                        }
                    }
                }
                pos = e + 1;
            }
            e = e + 1;
        }
        if present {
            proof {
                let k = choose|k: int| 0 <= k < m && #[trigger] self.edges@[k] == (ia, ib);
                assert(self.edges@.contains((ia, ib)));
            }
        } else {
            self.edges.insert(pos, (ia, ib));
            proof {
                lemma_inserted(old(self).edges@, self.edges@, pos as int, (ia, ib));
                let after = self.edges@;
                let before = old(self).edges@;
                assert forall|d: int, e: int| 0 <= d < e < after.len() implies (#[trigger] after[d]) != (#[trigger] after[e])
                    && self.nodes@[after[d].1 as int] <= self.nodes@[after[e].1 as int] by {
                    let d0 = if d < pos { d } else { d - 1 };
                    let e0 = if e < pos { e } else { e - 1 };
                    if d != pos && e != pos {
                        assert(before[d0] != before[e0] && self.nodes@[before[d0].1 as int] <= self.nodes@[before[e0].1 as int]);
                    } else if d == pos {
                        assert(self.nodes@[before[e0].1 as int] > b);
                    } else {
                        assert(self.nodes@[before[d0].1 as int] <= b);
                        assert(before[d0] != (ia, ib));
                    }
                }
                assert forall|e: int| 0 <= e < after.len() implies (#[trigger] after[e]).0 < self.nodes@.len()
                    && after[e].1 < self.nodes@.len() by {
                    if e != pos {
                        let e0 = if e < pos { e } else { e - 1 };
                        assert(before[e0].0 < self.nodes@.len());
                    }
                }
            }
        }
    }

    /// The graph has an edge between two transactions exactly if it lists an
    /// edge between their nodes.
    proof fn lemma_has_edge(&self, x: TxID, y: TxID)
        ensures
            self.has_edge(x, y) <==> exists|pair: (usize, usize)|
                #![trigger self.edges@.contains(pair)]
                self.edges@.contains(pair) && self.nodes@[pair.0 as int] == x && self.nodes@[pair.1 as int] == y,
    {
        if self.has_edge(x, y) {
            let e = choose|e: int|
                0 <= e < self.edges@.len() && self.nodes@[(#[trigger] self.edges@[e]).0 as int] == x
                    && self.nodes@[self.edges@[e].1 as int] == y;
            assert(self.edges@.contains(self.edges@[e]));
        }
        if exists|pair: (usize, usize)|
            #![trigger self.edges@.contains(pair)]
            self.edges@.contains(pair) && self.nodes@[pair.0 as int] == x && self.nodes@[pair.1 as int] == y {
            let pair = choose|pair: (usize, usize)|
                #![trigger self.edges@.contains(pair)]
                self.edges@.contains(pair) && self.nodes@[pair.0 as int] == x && self.nodes@[pair.1 as int] == y;
            let e = choose|e: int| 0 <= e < self.edges@.len() && self.edges@[e] == pair;
            assert(self.nodes@[self.edges@[e].0 as int] == x);
        }
    }

    /// Adds an edge from `a` to `b`, unless the graph has it.
    pub fn add_edge(&mut self, a: TxID, b: TxID)
        requires
            old(self).wf(),
        ensures
            final(self).wf(),
            forall|x: TxID, y: TxID|
                final(self).has_edge(x, y) <==> old(self).has_edge(x, y) || (x == a && y == b),
    {
        let ghost g0 = *self;
        let ia: usize = self.node_index(a);
        let ghost g1 = *self;
        let ib: usize = self.node_index(b);
        let ghost g2 = *self;
        self.insert_edge(ia, ib);
        proof {
            let g3 = *self;
            assert(g2.nodes@[ia as int] == a);
            assert forall|pair: (usize, usize)| g0.edges@.contains(pair) implies pair.0 < g0.nodes@.len() && pair.1
                < g0.nodes@.len() && g3.nodes@[pair.0 as int] == g0.nodes@[pair.0 as int] && g3.nodes@[pair.1 as int]
                == g0.nodes@[pair.1 as int] by {
                let e = choose|e: int| 0 <= e < g0.edges@.len() && g0.edges@[e] == pair;
                assert(g0.edges@[e].0 < g0.nodes@.len());
                assert(g1.nodes@[pair.0 as int] == g0.nodes@[pair.0 as int]);
                assert(g1.nodes@[pair.1 as int] == g0.nodes@[pair.1 as int]);
            }
            assert forall|x: TxID, y: TxID| g3.has_edge(x, y) <==> g0.has_edge(x, y) || (x == a && y == b) by {
                g0.lemma_has_edge(x, y);
                g3.lemma_has_edge(x, y);
                if g0.has_edge(x, y) {
                    let pair = choose|pair: (usize, usize)|
                        #![trigger g0.edges@.contains(pair)]
                        g0.edges@.contains(pair) && g0.nodes@[pair.0 as int] == x && g0.nodes@[pair.1 as int] == y;
                    assert(g3.edges@.contains(pair));
                }
                if x == a && y == b {
                    assert(g3.edges@.contains((ia, ib)));
                }
                if g3.has_edge(x, y) {
                    let pair = choose|pair: (usize, usize)|
                        #![trigger g3.edges@.contains(pair)]
                        g3.edges@.contains(pair) && g3.nodes@[pair.0 as int] == x && g3.nodes@[pair.1 as int] == y;
                    if pair != (ia, ib) {
                        assert(g0.edges@.contains(pair));
                    }
                }
            }
        }
    }

    /// The edges, each once, as pairs of the transaction that waits and the
    /// one it waits for, in the order of the identifiers that they lead to.
    pub fn get_edge_list(&self) -> (list: Vec<(TxID, TxID)>)
        requires
            self.wf(),
        ensures
            forall|a: TxID, b: TxID| self.has_edge(a, b) <==> list@.contains((a, b)),
            list@.no_duplicates(),
            forall|i: int, j: int| 0 <= i < j < list@.len() ==> (#[trigger] list@[i]).1 <= (#[trigger] list@[j]).1,
    {
        let m: usize = self.edges.len();
        let mut list: Vec<(TxID, TxID)> = Vec::new();
        let mut e: usize = 0;
        while e < m
            invariant
                e <= m == self.edges@.len(),
                self.wf(),
                list@.len() == e,
                forall|k: int|
                    0 <= k < e ==> #[trigger] list@[k] == (
                        self.nodes@[self.edges@[k].0 as int],
                        self.nodes@[self.edges@[k].1 as int],
                    ),
            decreases m - e,
        {
            let edge: (usize, usize) = self.edges[e];
            list.push((self.nodes[edge.0], self.nodes[edge.1]));
            e = e + 1;
        }
        proof {
            assert forall|a: TxID, b: TxID| self.has_edge(a, b) <==> list@.contains((a, b)) by {
                if self.has_edge(a, b) {
                    let k = choose|k: int|
                        0 <= k < self.edges@.len() && self.nodes@[(#[trigger] self.edges@[k]).0 as int] == a
                            && self.nodes@[self.edges@[k].1 as int] == b;
                    assert(list@[k] == (a, b));
                }
                if list@.contains((a, b)) {
                    let k = choose|k: int| 0 <= k < list@.len() && list@[k] == (a, b);
                    assert(self.nodes@[self.edges@[k].0 as int] == a);
                }
            }
            assert forall|i: int, j: int| 0 <= i < j < list@.len() implies (#[trigger] list@[i]) != (#[trigger] list@[j])
                && list@[i].1 <= list@[j].1 by {
                assert(self.edges@[i] != self.edges@[j] && self.nodes@[self.edges@[i].1 as int]
                    <= self.nodes@[self.edges@[j].1 as int]);
                if list@[i] == list@[j] {
                    self.lemma_place(self.edges@[i].0 as int);
                    self.lemma_place(self.edges@[j].0 as int);
                    self.lemma_place(self.edges@[i].1 as int);
                    self.lemma_place(self.edges@[j].1 as int);
                }
            }
        }
        list
    }
}

/// What a list holds after an insertion.
proof fn lemma_inserted(before: Seq<(usize, usize)>, after: Seq<(usize, usize)>, pos: int, x: (usize, usize))
    requires
        0 <= pos <= before.len(),
        after == before.insert(pos, x),
    ensures
        after.len() == before.len() + 1,
        forall|k: int|
            0 <= k < after.len() ==> #[trigger] after[k] == if k < pos {
                before[k]
            } else if k == pos {
                x
            } else {
                before[k - 1]
            },
        forall|pair: (usize, usize)| after.contains(pair) <==> before.contains(pair) || pair == x,
{
    assert forall|pair: (usize, usize)| after.contains(pair) <==> before.contains(pair) || pair == x by {
        if before.contains(pair) {
            let k = choose|k: int| 0 <= k < before.len() && before[k] == pair;
            let k2 = if k < pos { k } else { k + 1 };
            assert(after[k2] == pair);
        }
        if pair == x {
            assert(after[pos] == x);
        }
        if after.contains(pair) && pair != x {
            let k = choose|k: int| 0 <= k < after.len() && after[k] == pair;
            let k0 = if k < pos { k } else { k - 1 };
            assert(before[k0] == pair);
        }
    }
}

/// A node that the search has not reached.
const WHITE: u8 = 0;

/// A node on the path that the search is following.
const GRAY: u8 = 1;

/// A node that the search has left: no closing walk passes through it.
const BLACK: u8 = 2;

/// The number of nodes that the search has not reached.
spec fn whites(mark: Seq<u8>) -> nat
    decreases mark.len(),
{
    if mark.len() == 0 {
        0
    } else {
        whites(mark.drop_last()) + if mark.last() == WHITE {
            1nat
        } else {
            0nat
        }
    }
}

proof fn lemma_whites_le(a: Seq<u8>, b: Seq<u8>)
    requires
        a.len() == b.len(),
        forall|i: int| 0 <= i < b.len() && b[i] == WHITE ==> a[i] == WHITE,
    ensures
        whites(b) <= whites(a),
    decreases a.len(),
{
    if a.len() > 0 {
        lemma_whites_le(a.drop_last(), b.drop_last());
    }
}

proof fn lemma_whites_lt(a: Seq<u8>, b: Seq<u8>, u: int)
    requires
        a.len() == b.len(),
        forall|i: int| 0 <= i < b.len() && b[i] == WHITE ==> a[i] == WHITE,
        0 <= u < a.len(),
        a[u] == WHITE,
        b[u] != WHITE,
    ensures
        whites(b) < whites(a),
    decreases a.len(),
{
    if u == a.len() - 1 {
        lemma_whites_le(a.drop_last(), b.drop_last());
    } else {
        lemma_whites_lt(a.drop_last(), b.drop_last(), u);
    }
}

/// What holds of the nodes that the search has left: each got a rank when
/// it was left, and an edge from such a node leads to one that was left
/// earlier.
spec fn finished_ok(edges: Seq<(usize, usize)>, mark: Seq<u8>, rank: Seq<nat>, next: nat) -> bool {
    &&& rank.len() == mark.len()
    &&& forall|w: int| 0 <= w < mark.len() ==> #[trigger] mark[w] <= BLACK
    &&& forall|w: int| 0 <= w < mark.len() && #[trigger] mark[w] == BLACK ==> rank[w] < next
    &&& forall|e: int|
        0 <= e < edges.len() && mark[(#[trigger] edges[e]).0 as int] == BLACK ==> mark[edges[e].1 as int]
            == BLACK && rank[edges[e].1 as int] < rank[edges[e].0 as int]
}

/// What holds of the path that the search is following: it holds the gray
/// nodes, each once, and each has an edge to the next.
spec fn path_ok(edges: Seq<(usize, usize)>, mark: Seq<u8>, path: Seq<usize>) -> bool {
    &&& forall|i: int| 0 <= i < path.len() ==> (#[trigger] path[i]) < mark.len() && mark[path[i] as int] == GRAY
    &&& forall|v: int| 0 <= v < mark.len() && #[trigger] mark[v] == GRAY ==> path.contains(v as usize)
    &&& forall|i: int| 0 <= i < path.len() - 1 ==> edges.contains(#[trigger] link(path, i))
    &&& forall|i: int, j: int| 0 <= i < j < path.len() ==> #[trigger] path[i] != #[trigger] path[j]
}

/// Node `i` of `path` and the one after it.
spec fn link(path: Seq<usize>, i: int) -> (usize, usize) {
    (path[i], path[i + 1])
}

/// Whether `l` lists the nodes of a closing walk, by index.
spec fn index_lasso(edges: Seq<(usize, usize)>, l: Seq<usize>, n: nat) -> bool {
    &&& l.len() >= 2
    &&& forall|i: int| 0 <= i < l.len() ==> (#[trigger] l[i]) < n
    &&& forall|i: int| 0 <= i < l.len() - 1 ==> edges.contains(#[trigger] link(l, i))
    &&& forall|i: int, j: int| 0 <= i < j < l.len() - 1 ==> #[trigger] l[i] != #[trigger] l[j]
    &&& exists|j: int| 0 <= j < l.len() - 1 && #[trigger] l[j] == l[l.len() - 1]
}

impl WaitGraph {
    /// The transactions of the nodes `l`.
    spec fn ids(&self, l: Seq<usize>) -> Seq<TxID> {
        Seq::new(l.len(), |i: int| self.nodes@[l[i] as int])
    }

    /// The index of the node of `t`.
    spec fn place(&self, t: TxID) -> int {
        choose|i: int| 0 <= i < self.nodes@.len() && self.nodes@[i] == t
    }

    /// A node is at its place.
    proof fn lemma_place(&self, i: int)
        requires
            self.wf(),
            0 <= i < self.nodes@.len(),
        ensures
            self.place(self.nodes@[i]) == i,
    {
        let p = self.place(self.nodes@[i]);
        assert(0 <= p < self.nodes@.len() && self.nodes@[p] == self.nodes@[i]);
        if p < i {
            assert(self.nodes@[p] != self.nodes@[i]);
        } else if i < p {
            assert(self.nodes@[i] != self.nodes@[p]);
        }
    }

    /// An edge between transactions is an edge between their places.
    proof fn lemma_edge_places(&self, a: TxID, b: TxID) -> (e: int)
        requires
            self.wf(),
            self.has_edge(a, b),
        ensures
            0 <= e < self.edges@.len(),
            self.edges@[e].0 == self.place(a),
            self.edges@[e].1 == self.place(b),
            0 <= self.place(a) < self.nodes@.len(),
            0 <= self.place(b) < self.nodes@.len(),
            self.nodes@[self.place(a)] == a,
            self.nodes@[self.place(b)] == b,
    {
        let e = choose|e: int|
            0 <= e < self.edges@.len() && self.nodes@[(#[trigger] self.edges@[e]).0 as int] == a
                && self.nodes@[self.edges@[e].1 as int] == b;
        self.lemma_place(self.edges@[e].0 as int);
        self.lemma_place(self.edges@[e].1 as int);
        e
    }

    /// An edge between places is an edge between their transactions.
    proof fn lemma_index_edge(&self, a: usize, b: usize)
        requires
            self.wf(),
            self.edges@.contains((a, b)),
        ensures
            self.has_edge(self.nodes@[a as int], self.nodes@[b as int]),
            a < self.nodes@.len(),
            b < self.nodes@.len(),
    {
        let e = choose|e: int| 0 <= e < self.edges@.len() && self.edges@[e] == (a, b);
        assert(self.nodes@[self.edges@[e].0 as int] == self.nodes@[a as int]);
    }

    /// A closing walk of nodes is a closing walk of their transactions.
    proof fn lemma_ids_lasso(&self, l: Seq<usize>)
        requires
            self.wf(),
            index_lasso(self.edges@, l, self.nodes@.len() as nat),
        ensures
            is_lasso(self.edge_fn(), self.ids(l)),
    {
        let w = self.ids(l);
        assert forall|i: int| 0 <= i < w.len() - 1 implies #[trigger] linked(self.edge_fn(), w, i) by {
            assert(self.edges@.contains(link(l, i)));
            self.lemma_index_edge(l[i], l[i + 1]);
        }
        assert forall|i: int, j: int| 0 <= i < j < w.len() - 1 implies #[trigger] w[i] != #[trigger] w[j] by {
            assert(l[i] != l[j]);
            self.lemma_place(l[i] as int);
            self.lemma_place(l[j] as int);
        }
        let j = choose|j: int| 0 <= j < l.len() - 1 && #[trigger] l[j] == l[l.len() - 1];
        assert(w[j] == w[w.len() - 1]);
    }

    /// From a node that the search has left, a walk leads only to nodes that
    /// it has left, and of smaller rank at every step.
    proof fn lemma_black_chain(&self, mark: Seq<u8>, rank: Seq<nat>, next: nat, w: Seq<TxID>, p: int, m: int)
        requires
            self.wf(),
            mark.len() == self.nodes@.len(),
            finished_ok(self.edges@, mark, rank, next),
            is_lasso(self.edge_fn(), w),
            0 <= p <= m <= w.len() - 1,
            0 <= self.place(w[p]) < self.nodes@.len(),
            self.nodes@[self.place(w[p])] == w[p],
            mark[self.place(w[p])] == BLACK,
        ensures
            0 <= self.place(w[m]) < self.nodes@.len(),
            self.nodes@[self.place(w[m])] == w[m],
            mark[self.place(w[m])] == BLACK,
            rank[self.place(w[m])] + (m - p) <= rank[self.place(w[p])],
        decreases m - p,
    {
        if p < m {
            self.lemma_black_chain(mark, rank, next, w, p, m - 1);
            assert(linked(self.edge_fn(), w, m - 1));
            let e = self.lemma_edge_places(w[m - 1], w[m]);
            assert(mark[self.edges@[e].0 as int] == BLACK);
        }
    }

    /// No closing walk passes through a node that the search has left.
    proof fn lemma_lasso_avoids_black(
        &self,
        mark: Seq<u8>,
        rank: Seq<nat>,
        next: nat,
        w: Seq<TxID>,
        p: int,
    )
        requires
            self.wf(),
            mark.len() == self.nodes@.len(),
            finished_ok(self.edges@, mark, rank, next),
            is_lasso(self.edge_fn(), w),
            0 <= p < w.len() - 1,
            0 <= self.place(w[p]) < self.nodes@.len(),
            self.nodes@[self.place(w[p])] == w[p],
        ensures
            mark[self.place(w[p])] != BLACK,
    {
        if mark[self.place(w[p])] == BLACK {
            let last = w.len() - 1;
            self.lemma_black_chain(mark, rank, next, w, p, last);
            let j = choose|j: int| 0 <= j < w.len() - 1 && #[trigger] w[j] == w[w.len() - 1];
            assert(w[j] == w[last]);
            self.lemma_black_chain(mark, rank, next, w, j, last);
        }
    }

    /// The step that a closing walk takes after the path `pre` and the node
    /// `u`: the walk is longer than the path, and goes on along an edge from
    /// `u`.
    proof fn lemma_next_step(&self, mark: Seq<u8>, pre: Seq<usize>, u: usize, w: Seq<TxID>) -> (e: int)
        requires
            self.wf(),
            mark.len() == self.nodes@.len(),
            path_ok(self.edges@, mark, pre.push(u)),
            is_lasso(self.edge_fn(), w),
            begins(w, self.ids(pre.push(u))),
        ensures
            w.len() > pre.len() + 1,
            0 <= e < self.edges@.len(),
            self.edges@[e].0 == u,
            self.edges@[e].1 < self.nodes@.len(),
            self.nodes@[self.edges@[e].1 as int] == w[pre.len() as int + 1],
    {
        let path = pre.push(u);
        let d = pre.len() as int;
        let t = self.ids(path);
        assert(w[d] == t[d]);
        assert(path[d] == u);
        assert(w[d] == self.nodes@[u as int]);
        if w.len() == d + 1 {
            let j = choose|j: int| 0 <= j < w.len() - 1 && #[trigger] w[j] == w[w.len() - 1];
            assert(w[j] == t[j]);
            assert(self.nodes@[path[j] as int] == self.nodes@[u as int]);
            self.lemma_place(path[j] as int);
            self.lemma_place(u as int);
            assert(path[j] != path[d]);
        }
        assert(linked(self.edge_fn(), w, d));
        let e = self.lemma_edge_places(w[d], w[d + 1]);
        self.lemma_place(u as int);
        e
    }

    /// A closing walk that goes on from the path to a node on the path ends
    /// there.
    proof fn lemma_closed_here(&self, mark: Seq<u8>, pre: Seq<usize>, u: usize, v: usize, w: Seq<TxID>)
        requires
            self.wf(),
            mark.len() == self.nodes@.len(),
            path_ok(self.edges@, mark, pre.push(u)),
            v < mark.len(),
            mark[v as int] == GRAY,
            is_lasso(self.edge_fn(), w),
            begins(w, self.ids(pre.push(u))),
            w.len() > pre.len() + 1,
            w[pre.len() as int + 1] == self.nodes@[v as int],
        ensures
            lex_le(self.ids(pre.push(u).push(v)), w),
    {
        let path = pre.push(u);
        let d = pre.len() as int;
        let t = self.ids(path);
        let l = self.ids(path.push(v));
        let j = choose|j: int| 0 <= j < path.len() && path[j] == v;
        assert(path.contains(v));
        assert(w[j] == t[j]);
        if w.len() > d + 2 {
            assert(w[j] != w[d + 1]);
        }
        assert(agree(l, w, d + 2)) by {
            assert forall|i: int| 0 <= i < d + 2 implies #[trigger] l[i] == w[i] by {
                if i < d + 1 {
                    assert(w[i] == t[i]);
                }
            }
        }
    }

    /// How the first closing walk is found at the node `u`: the edges from
    /// `u` are tried in the order of the identifiers they lead to, and those
    /// tried so far led only to nodes that the search has left. So a closing
    /// walk through the edge at hand is the first if it is the first of
    /// those that go on along this edge.
    proof fn lemma_first_step(
        &self,
        mark: Seq<u8>,
        rank: Seq<nat>,
        next: nat,
        pre: Seq<usize>,
        u: usize,
        e: int,
        l: Seq<usize>,
        w: Seq<TxID>,
    )
        requires
            self.wf(),
            mark.len() == self.nodes@.len(),
            finished_ok(self.edges@, mark, rank, next),
            path_ok(self.edges@, mark, pre.push(u)),
            0 <= e < self.edges@.len(),
            self.edges@[e].0 == u,
            forall|k: int| 0 <= k < e && (#[trigger] self.edges@[k]).0 == u ==> mark[self.edges@[k].1 as int] == BLACK,
            l.len() > pre.len() + 1,
            forall|i: int| 0 <= i < l.len() ==> (#[trigger] l[i]) < self.nodes@.len(),
            forall|i: int| 0 <= i < pre.len() ==> l[i] == pre[i],
            l[pre.len() as int] == u,
            l[pre.len() as int + 1] == self.edges@[e].1,
            is_lasso(self.edge_fn(), w),
            begins(w, self.ids(pre.push(u))),
            w.len() > pre.len() + 1 && w[pre.len() as int + 1] == self.nodes@[self.edges@[e].1 as int] ==> lex_le(
                self.ids(l),
                w,
            ),
        ensures
            lex_le(self.ids(l), w),
    {
        let path = pre.push(u);
        let d = pre.len() as int;
        let t = self.ids(path);
        let f = self.lemma_next_step(mark, pre, u, w);
        let x = self.edges@[f].1;
        let v = self.edges@[e].1;
        if f < e {
            assert(mark[x as int] == BLACK);
            self.lemma_place(x as int);
            if d + 1 == w.len() - 1 {
                let j = choose|j: int| 0 <= j < w.len() - 1 && #[trigger] w[j] == w[w.len() - 1];
                assert(w[j] == t[j]);
                self.lemma_place(path[j] as int);
                assert(mark[path[j] as int] == GRAY);
            } else {
                self.lemma_lasso_avoids_black(mark, rank, next, w, d + 1);
            }
        } else if e < f {
            assert(self.edges@[e] != self.edges@[f] && self.nodes@[v as int] <= self.nodes@[x as int]);
            if self.nodes@[v as int] == self.nodes@[x as int] {
                self.lemma_place(v as int);
                self.lemma_place(x as int);
            }
            let a = self.ids(l);
            assert(agree(a, w, d + 1)) by {
                assert forall|i: int| 0 <= i < d + 1 implies #[trigger] a[i] == w[i] by {
                    assert(w[i] == t[i]);
                }
            }
            assert(a[d + 1] < w[d + 1]);
        }
    }

    /// A copy of `path` with `v` added at its end.
    fn closed_path(path: &Vec<usize>, v: usize) -> (l: Vec<usize>)
        ensures
            l@ == path@.push(v),
    {
        let len: usize = path.len();
        let mut l: Vec<usize> = Vec::new();
        let mut i: usize = 0;
        while i < len
            invariant
                i <= len == path@.len(),
                l@ == path@.subrange(0, i as int),
            decreases len - i,
        {
            l.push(path[i]);
            assert(path@.subrange(0, i + 1) =~= path@.subrange(0, i as int).push(path@[i as int]));
            i = i + 1;
        }
        assert(path@.subrange(0, len as int) =~= path@);
        l.push(v);
        l
    }

    /// Follows the edges from the unreached node `u`, in the order of the
    /// identifiers they lead to. Returns the first closing walk that goes on
    /// from the path and `u`, if there is one; otherwise leaves `u` and all
    /// that it reached.
    fn visit(
        &self,
        u: usize,
        mark: &mut Vec<u8>,
        path: &mut Vec<usize>,
        Ghost(rank0): Ghost<Seq<nat>>,
        Ghost(next0): Ghost<nat>,
    ) -> (r: (Option<Vec<usize>>, Ghost<Seq<nat>>, Ghost<nat>))
        requires
            self.wf(),
            old(mark)@.len() == self.nodes@.len(),
            u < self.nodes@.len(),
            old(mark)@[u as int] == WHITE,
            finished_ok(self.edges@, old(mark)@, rank0, next0),
            path_ok(self.edges@, old(mark)@, old(path)@),
            old(path)@.len() > 0 ==> self.edges@.contains((old(path)@[old(path)@.len() - 1], u)),
        ensures
            final(mark)@.len() == self.nodes@.len(),
            r.0 matches Some(l) ==> {
                &&& index_lasso(self.edges@, l@, self.nodes@.len() as nat)
                &&& l@.len() > old(path)@.len() + 1
                &&& forall|i: int| 0 <= i < old(path)@.len() ==> l@[i] == old(path)@[i]
                &&& l@[old(path)@.len() as int] == u
                &&& forall|w: Seq<TxID>|
                    #[trigger] is_lasso(self.edge_fn(), w) && begins(w, self.ids(old(path)@.push(u))) ==> lex_le(
                        self.ids(l@),
                        w,
                    )
            },
            r.0 is None ==> {
                &&& final(mark)@[u as int] == BLACK
                &&& finished_ok(self.edges@, final(mark)@, r.1@, r.2@)
                &&& final(path)@ == old(path)@
                &&& forall|v: int|
                    0 <= v < old(mark)@.len() && #[trigger] old(mark)@[v] != WHITE ==> final(mark)@[v] == old(
                        mark,
                    )@[v]
                &&& forall|v: int|
                    0 <= v < old(mark)@.len() && #[trigger] final(mark)@[v] == GRAY ==> old(mark)@[v] == GRAY
            },
        decreases whites(old(mark)@),
    {
        let ghost mut rank = rank0;
        let ghost mut next = next0;
        let ghost n = self.nodes@.len() as nat;
        let ghost pre = old(path)@;
        mark.set(u, GRAY);
        path.push(u);
        proof {
            assert forall|v: int| 0 <= v < mark@.len() && #[trigger] mark@[v] == GRAY implies path@.contains(
                v as usize,
            ) by {
                if v == u {
                    assert(path@[path@.len() - 1] == u);
                } else {
                    assert(old(mark)@[v] == GRAY);
                    let k = choose|k: int| 0 <= k < pre.len() && pre[k] == v as usize;
                    assert(path@[k] == v as usize);
                }
            }
            assert forall|i: int| 0 <= i < path@.len() - 1 implies self.edges@.contains(
                #[trigger] link(path@, i),
            ) by {
                if i < pre.len() - 1 {
                    assert(self.edges@.contains(link(pre, i)));
                }
            }
            assert forall|i: int| 0 <= i < path@.len() implies (#[trigger] path@[i]) < mark@.len() && mark@[path@[i] as int]
                == GRAY by {
                if i < pre.len() {
                    assert(pre[i] == path@[i]);
                }
            }
            assert forall|i: int, j: int| 0 <= i < j < path@.len() implies #[trigger] path@[i] != #[trigger] path@[j] by {
                if j < pre.len() {
                    assert(pre[i] != pre[j]);
                } else {
                    assert(old(mark)@[pre[i] as int] == GRAY);
                }
            }
            assert(finished_ok(self.edges@, mark@, rank, next));
        }
        let m: usize = self.edges.len();
        let mut e: usize = 0;
        while e < m
            invariant
                e <= m == self.edges@.len(),
                self.wf(),
                u < self.nodes@.len(),
                n == self.nodes@.len(),
                mark@.len() == n == old(mark)@.len(),
                old(mark)@[u as int] == WHITE,
                mark@[u as int] == GRAY,
                pre == old(path)@,
                path@ == pre.push(u),
                finished_ok(self.edges@, mark@, rank, next),
                path_ok(self.edges@, mark@, path@),
                forall|k: int|
                    0 <= k < e && (#[trigger] self.edges@[k]).0 == u ==> mark@[self.edges@[k].1 as int] == BLACK,
                forall|v: int|
                    0 <= v < n && #[trigger] old(mark)@[v] != WHITE ==> mark@[v] == old(mark)@[v],
                forall|v: int| 0 <= v < n && #[trigger] mark@[v] == GRAY ==> v == u || old(mark)@[v] == GRAY,
            decreases m - e,
        {
            let edge: (usize, usize) = self.edges[e];
            if edge.0 == u {
                let v: usize = edge.1;
                if mark[v] == GRAY {
                    let l = Self::closed_path(path, v);
                    proof {
                        assert(self.edges@[e as int] == (u, v));
                        assert(link(l@, l@.len() - 2) == (u, v));
                        assert forall|i: int| 0 <= i < l@.len() - 1 implies self.edges@.contains(
                            #[trigger] link(l@, i),
                        ) by {
                            if i < path@.len() - 1 {
                                assert(link(l@, i) == link(path@, i));
                            }
                        }
                        assert forall|i: int, j: int| 0 <= i < j < l@.len() - 1 implies #[trigger] l@[i]
                            != #[trigger] l@[j] by {
                            assert(path@[i] != path@[j]);
                        }
                        assert(path@.contains(v));
                        let j = choose|j: int| 0 <= j < path@.len() && path@[j] == v;
                        assert(l@[j] == l@[l@.len() - 1]);
                        assert forall|i: int| 0 <= i < l@.len() implies (#[trigger] l@[i]) < n by {
                            if i < path@.len() {
                                assert(path@[i] < mark@.len());
                            }
                        }
                        assert forall|i: int| 0 <= i < pre.len() implies l@[i] == pre[i] by {
                            assert(path@[i] == pre[i]);
                        }
                        assert forall|w: Seq<TxID>|
                            #[trigger] is_lasso(self.edge_fn(), w) && begins(w, self.ids(pre.push(u))) implies lex_le(
                            self.ids(l@),
                            w,
                        ) by {
                            if w.len() > pre.len() + 1 && w[pre.len() as int + 1] == self.nodes@[v as int] {
                                self.lemma_closed_here(mark@, pre, u, v, w);
                            }
                            self.lemma_first_step(mark@, rank, next, pre, u, e as int, l@, w);
                        }
                    }
                    return (Some(l), Ghost(rank), Ghost(next));
                } else if mark[v] == WHITE {
                    let ghost before = mark@;
                    proof {
                        lemma_whites_lt(old(mark)@, mark@, u as int);
                        assert(self.edges@[e as int] == (u, v));
                        assert(path@[path@.len() - 1] == u);
                    }
                    let (res, Ghost(rank2), Ghost(next2)) = self.visit(v, mark, path, Ghost(rank), Ghost(next));
                    match res {
                        Some(l) => {
                            proof {
                                assert forall|i: int| 0 <= i < pre.len() implies l@[i] == pre[i] by {
                                    assert(l@[i] == pre.push(u)[i]);
                                }
                                assert(l@[pre.len() as int] == pre.push(u)[pre.len() as int]);
                                assert forall|w: Seq<TxID>|
                                    #[trigger] is_lasso(self.edge_fn(), w) && begins(w, self.ids(pre.push(u))) implies lex_le(
                                    self.ids(l@),
                                    w,
                                ) by {
                                    if w.len() > pre.len() + 1 && w[pre.len() as int + 1] == self.nodes@[v as int] {
                                        let longer = self.ids(pre.push(u).push(v));
                                        let shorter = self.ids(pre.push(u));
                                        assert(agree(w, longer, longer.len() as int)) by {
                                            assert forall|i: int| 0 <= i < longer.len() implies #[trigger] w[i]
                                                == longer[i] by {
                                                if i < shorter.len() {
                                                    assert(w[i] == shorter[i]);
                                                }
                                            }
                                        }
                                        assert(begins(w, longer));
                                    }
                                    self.lemma_first_step(before, rank, next, pre, u, e as int, l@, w);
                                }
                            }
                            return (Some(l), Ghost(rank2), Ghost(next2));
                        },
                        None => {
                            proof {
                                rank = rank2;
                                next = next2;
                                assert(before[u as int] != WHITE);
                                assert forall|i: int| 0 <= i < path@.len() implies (#[trigger] path@[i]) < mark@.len()
                                    && mark@[path@[i] as int] == GRAY by {
                                    assert(before[path@[i] as int] == GRAY);
                                }
                                assert forall|x: int| 0 <= x < mark@.len() && #[trigger] mark@[x] == GRAY implies path@.contains(
                                    x as usize,
                                ) by {
                                    assert(before[x] == GRAY);
                                }
                                assert forall|k: int|
                                    0 <= k < e + 1 && (#[trigger] self.edges@[k]).0 == u implies mark@[self.edges@[k].1 as int]
                                    == BLACK by {
                                    if k < e {
                                        assert(before[self.edges@[k].1 as int] == BLACK);
                                    }
                                }
                                assert forall|x: int| 0 <= x < n && #[trigger] old(mark)@[x] != WHITE implies mark@[x]
                                    == old(mark)@[x] by {
                                    assert(before[x] == old(mark)@[x]);
                                }
                                assert forall|x: int| 0 <= x < n && #[trigger] mark@[x] == GRAY implies x == u
                                    || old(mark)@[x] == GRAY by {
                                    assert(before[x] == GRAY);
                                }
                            }
                        },
                    }
                }
            }
            e = e + 1;
        }
        let ghost gray = mark@;
        mark.set(u, BLACK);
        path.pop();
        proof {
            let rank1 = rank.update(u as int, next);
            let next1 = next + 1;
            assert(path@ =~= old(path)@);
            assert forall|w: int| 0 <= w < mark@.len() && #[trigger] mark@[w] == BLACK implies rank1[w] < next1 by {
                if w != u {
                    assert(gray[w] == BLACK);
                }
            }
            assert forall|k: int|
                0 <= k < self.edges@.len() && mark@[(#[trigger] self.edges@[k]).0 as int] == BLACK implies mark@[self.edges@[k].1 as int]
                == BLACK && rank1[self.edges@[k].1 as int] < rank1[self.edges@[k].0 as int] by {
                let a = self.edges@[k].0 as int;
                let b = self.edges@[k].1 as int;
                if a == u {
                    assert(gray[b] == BLACK);
                    assert(b != u);
                } else {
                    assert(gray[a] == BLACK);
                    assert(gray[b] == BLACK);
                    assert(b != u);
                }
            }
            assert forall|x: int| 0 <= x < n && #[trigger] old(mark)@[x] != WHITE implies mark@[x] == old(mark)@[x] by {
                assert(gray[x] == old(mark)@[x]);
            }
            assert forall|x: int| 0 <= x < n && #[trigger] mark@[x] == GRAY implies old(mark)@[x] == GRAY by {
                assert(gray[x] == GRAY);
            }
            rank = rank1;
            next = next1;
        }
        (None, Ghost(rank), Ghost(next))
    }
}

impl WaitGraph {
    /// The unreached node with the smallest transaction identifier.
    fn smallest_white(&self, mark: &Vec<u8>) -> (r: Option<usize>)
        requires
            mark@.len() == self.nodes@.len(),
        ensures
            r matches Some(s) ==> s < mark@.len() && mark@[s as int] == WHITE && forall|v: int|
                0 <= v < mark@.len() && #[trigger] mark@[v] == WHITE ==> self.nodes@[s as int] <= self.nodes@[v],
            r is None ==> forall|v: int| 0 <= v < mark@.len() ==> mark@[v] != WHITE,
    {
        let n: usize = self.nodes.len();
        let mut best: Option<usize> = None;
        let mut i: usize = 0;
        while i < n
            invariant
                i <= n == self.nodes@.len() == mark@.len(),
                best matches Some(s) ==> s < n && mark@[s as int] == WHITE && forall|v: int|
                    0 <= v < i && #[trigger] mark@[v] == WHITE ==> self.nodes@[s as int] <= self.nodes@[v],
                best is None ==> forall|v: int| 0 <= v < i ==> mark@[v] != WHITE,
            decreases n - i,
        {
            if mark[i] == WHITE {
                best = match best {
                    None => Some(i),
                    Some(s) => if self.nodes[i] < self.nodes[s] {
                        Some(i)
                    } else {
                        Some(s)
                    },
                };
            }
            i = i + 1;
        }
        best
    }

    /// The closing walk that the search finds from the smallest unreached
    /// node is the first of all closing walks, if it is the first of those
    /// that start from that node.
    proof fn lemma_root_least(
        &self,
        mark: Seq<u8>,
        rank: Seq<nat>,
        next: nat,
        s: usize,
        l: Seq<usize>,
        w: Seq<TxID>,
    )
        requires
            self.wf(),
            mark.len() == self.nodes@.len(),
            finished_ok(self.edges@, mark, rank, next),
            forall|v: int| 0 <= v < mark.len() ==> mark[v] != GRAY,
            s < mark.len(),
            forall|v: int| 0 <= v < mark.len() && #[trigger] mark[v] == WHITE ==> self.nodes@[s as int] <= self.nodes@[v],
            l.len() >= 2,
            l[0] == s,
            is_lasso(self.edge_fn(), w),
            begins(w, self.ids(Seq::<usize>::empty().push(s))) ==> lex_le(self.ids(l), w),
        ensures
            lex_le(self.ids(l), w),
    {
        assert(linked(self.edge_fn(), w, 0));
        let e = self.lemma_edge_places(w[0], w[1]);
        let i0 = self.place(w[0]);
        self.lemma_lasso_avoids_black(mark, rank, next, w, 0);
        assert(mark[i0] <= BLACK);
        assert(mark[i0] == WHITE);
        let a = self.ids(l);
        if self.nodes@[s as int] < w[0] {
            assert(agree(a, w, 0));
            assert(a[0] < w[0]);
        } else {
            self.lemma_place(s as int);
            let first = self.ids(Seq::<usize>::empty().push(s));
            assert(agree(w, first, 1)) by {
                assert forall|i: int| 0 <= i < 1 implies #[trigger] w[i] == first[i] by {}
            }
        }
    }

    /// The transactions of the nodes `l`.
    fn txns_of(&self, l: &Vec<usize>) -> (txns: Vec<TxID>)
        requires
            forall|i: int| 0 <= i < l@.len() ==> (#[trigger] l@[i]) < self.nodes@.len(),
        ensures
            txns@ == self.ids(l@),
    {
        let len: usize = l.len();
        let mut txns: Vec<TxID> = Vec::new();
        let mut i: usize = 0;
        while i < len
            invariant
                i <= len == l@.len(),
                forall|k: int| 0 <= k < l@.len() ==> (#[trigger] l@[k]) < self.nodes@.len(),
                txns@.len() == i,
                forall|k: int| 0 <= k < i ==> #[trigger] txns@[k] == self.nodes@[l@[k] as int],
            decreases len - i,
        {
            txns.push(self.nodes[l[i]]);
            i = i + 1;
        }
        assert(txns@ =~= self.ids(l@));
        txns
    }

    /// Searches the graph depth first for a walk that closes. The search
    /// starts from the smallest transaction identifier and follows the
    /// edges of a transaction in the order of the identifiers they lead to,
    /// so the walk it returns is the first of all closing walks in the order
    /// of a dictionary. It returns `None` exactly if no walk closes.
    pub fn find_lasso(&self) -> (r: Option<Vec<TxID>>)
        requires
            self.wf(),
        ensures
            r matches Some(w) ==> is_least_lasso(self.edge_fn(), w@),
            r is None ==> forall|w: Seq<TxID>| !is_lasso(self.edge_fn(), w),
    {
        let n: usize = self.nodes.len();
        let mut mark: Vec<u8> = Vec::new();
        let mut i: usize = 0;
        while i < n
            invariant
                i <= n,
                mark@.len() == i,
                forall|v: int| 0 <= v < i ==> mark@[v] == WHITE,
            decreases n - i,
        {
            mark.push(WHITE);
            i = i + 1;
        }
        let mut path: Vec<usize> = Vec::new();
        let ghost mut rank: Seq<nat> = Seq::new(n as nat, |i: int| 0nat);
        let ghost mut next: nat = 0;
        let mut start: Option<usize> = self.smallest_white(&mark);
        while start.is_some()
            invariant
                self.wf(),
                n == self.nodes@.len() == mark@.len(),
                path@.len() == 0,
                finished_ok(self.edges@, mark@, rank, next),
                forall|v: int| 0 <= v < n ==> mark@[v] != GRAY,
                start matches Some(s) ==> s < n && mark@[s as int] == WHITE && forall|v: int|
                    0 <= v < n && #[trigger] mark@[v] == WHITE ==> self.nodes@[s as int] <= self.nodes@[v],
                start is None ==> forall|v: int| 0 <= v < n ==> mark@[v] != WHITE,
            decreases whites(mark@), start.is_some() as int,
        {
            let s: usize = start.unwrap();
            let ghost before = mark@;
            let (res, Ghost(rank2), Ghost(next2)) = self.visit(s, &mut mark, &mut path, Ghost(rank), Ghost(next));
            match res {
                Some(l) => {
                    let txns = self.txns_of(&l);
                    proof {
                        self.lemma_ids_lasso(l@);
                        assert forall|w: Seq<TxID>| #[trigger] is_lasso(self.edge_fn(), w) implies lex_le(
                            self.ids(l@),
                            w,
                        ) by {
                            self.lemma_root_least(before, rank, next, s, l@, w);
                        }
                    }
                    return Some(txns);
                },
                None => {
                    proof {
                        rank = rank2;
                        next = next2;
                        lemma_whites_lt(before, mark@, s as int);
                    }
                },
            }
            start = self.smallest_white(&mark);
        }
        proof {
            assert forall|w: Seq<TxID>| !is_lasso(self.edge_fn(), w) by {
                if is_lasso(self.edge_fn(), w) {
                    assert(linked(self.edge_fn(), w, 0));
                    let e = self.lemma_edge_places(w[0], w[1]);
                    self.lemma_lasso_avoids_black(mark@, rank, next, w, 0);
                    assert(mark@[self.place(w[0])] <= BLACK);
                }
            }
        }
        None
    }

    /// Searches the graph for a cycle as `find_lasso` does, and returns the
    /// cycle that the first closing walk closes, its transactions in order.
    /// It returns `None` exactly if the graph has no cycle.
    pub fn find_cycle(&self) -> (r: Option<Vec<TxID>>)
        requires
            self.wf(),
        ensures
            r matches Some(c) ==> is_cycle(self.edge_fn(), c@) && exists|w: Seq<TxID>|
                #![trigger is_least_lasso(self.edge_fn(), w)]
                is_least_lasso(self.edge_fn(), w) && c@ == lasso_cycle(w),
            r is None ==> forall|c: Seq<TxID>| !is_cycle(self.edge_fn(), c),
    {
        match self.find_lasso() {
            Some(w) => {
                let c = cycle_of(&w);
                proof {
                    lemma_lasso_cycle(self.edge_fn(), w@);
                }
                Some(c)
            },
            None => {
                proof {
                    assert forall|c: Seq<TxID>| !is_cycle(self.edge_fn(), c) by {
                        if is_cycle(self.edge_fn(), c) {
                            lemma_cycle_has_lasso(self.edge_fn(), c);
                        }
                    }
                }
                None
            },
        }
    }

    /// Looks for a deadlock. Returns the largest transaction identifier on
    /// the cycle that `find_cycle` finds, the newest transaction of the
    /// cycle, or `None` exactly if the graph has no cycle.
    pub fn has_cycle(&self) -> (r: Option<TxID>)
        requires
            self.wf(),
        ensures
            r matches Some(t) ==> exists|w: Seq<TxID>|
                #![trigger is_least_lasso(self.edge_fn(), w)]
                is_least_lasso(self.edge_fn(), w) && is_largest(lasso_cycle(w), t),
            r is None ==> forall|c: Seq<TxID>| !is_cycle(self.edge_fn(), c),
    {
        match self.find_cycle() {
            Some(c) => {
                let victim: TxID = largest(&c);
                Some(victim)
            },
            None => None,
        }
    }
}

/// Whether `t` is the largest of the identifiers in `c`.
pub open spec fn is_largest(c: Seq<TxID>, t: TxID) -> bool {
    c.contains(t) && forall|i: int| 0 <= i < c.len() ==> c[i] <= t
}

/// The cycle that the closing walk `w` closes.
pub fn cycle_of(w: &Vec<TxID>) -> (c: Vec<TxID>)
    requires
        w@.len() >= 2,
        forall|i: int, j: int| 0 <= i < j < w@.len() - 1 ==> #[trigger] w@[i] != #[trigger] w@[j],
        exists|j: int| 0 <= j < w@.len() - 1 && #[trigger] w@[j] == w@[w@.len() - 1],
    ensures
        c@ == lasso_cycle(w@),
        c@.len() >= 1,
{
    let len: usize = w.len();
    let last: TxID = w[len - 1];
    let mut p: usize = 0;
    while p < len - 1 && w[p] != last
        invariant
            p <= len - 1,
            len == w@.len(),
            last == w@[len - 1],
            forall|k: int| 0 <= k < p ==> w@[k] != last,
        decreases len - p,
    {
        p = p + 1;
    }
    proof {
        let j = closing_index(w@);
        assert(0 <= j < w@.len() - 1 && w@[j] == w@[w@.len() - 1]);
        if p < j {
            assert(w@[p as int] != w@[j]);
        }
    }
    let mut c: Vec<TxID> = Vec::new();
    let mut i: usize = p;
    while i < len - 1
        invariant
            p <= i <= len - 1,
            len == w@.len(),
            c@ == w@.subrange(p as int, i as int),
        decreases len - i,
    {
        c.push(w[i]);
        assert(w@.subrange(p as int, i + 1) =~= w@.subrange(p as int, i as int).push(w@[i as int]));
        i = i + 1;
    }
    c
}

/// The largest of the identifiers in `c`.
pub fn largest(c: &Vec<TxID>) -> (t: TxID)
    requires
        c@.len() >= 1,
    ensures
        is_largest(c@, t),
{
    let n: usize = c.len();
    let mut best: TxID = c[0];
    let mut i: usize = 1;
    while i < n
        invariant
            1 <= i <= n == c@.len(),
            c@.contains(best),
            forall|k: int| 0 <= k < i ==> c@[k] <= best,
        decreases n - i,
    {
        if c[i] > best {
            best = c[i];
        }
        i = i + 1;
    }
    best
}

} // verus!
