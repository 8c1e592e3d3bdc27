//! What Prim's algorithm guarantees: its tree spans what the root reaches,
//! and no spanning tree of that part is lighter.

use crate::graph::Edge;
use crate::mst::{crosses, is_pick, is_prim_tree, picked_at, reached, total_weight};
use vstd::prelude::*;

verus! {

/// `e` joins the nodes `a` and `b`.
pub open spec fn joins(e: Edge, a: int, b: int) -> bool {
    (e.start_id == a && e.end_id == b) || (e.start_id == b && e.end_id == a)
}

/// Some edge of `s` joins `a` and `b`.
pub open spec fn linked(s: Seq<Edge>, a: int, b: int) -> bool {
    exists|i: int| 0 <= i < s.len() && joins(#[trigger] s[i], a, b)
}

/// `p` is a trail of nodes along edges of `s`.
pub open spec fn is_trail(s: Seq<Edge>, p: Seq<int>) -> bool {
    p.len() > 0 && forall|i: int| 0 <= i < p.len() - 1 ==> linked(s, #[trigger] p[i], p[i + 1])
}

/// `p` is a trail along edges of `s` from `a` to `b`.
pub open spec fn leads(s: Seq<Edge>, p: Seq<int>, a: int, b: int) -> bool {
    is_trail(s, p) && p[0] == a && p.last() == b
}

/// The edges of `s` connect `a` and `b`.
pub open spec fn tied(s: Seq<Edge>, a: int, b: int) -> bool {
    exists|p: Seq<int>| leads(s, p, a, b)
}

/// `s` connects `root` to every node that `edges` connect it to.
pub open spec fn spans(s: Seq<Edge>, root: int, edges: Seq<Edge>) -> bool {
    forall|v: int| tied(edges, root, v) ==> #[trigger] tied(s, root, v)
}

/// `s` is a spanning tree of the part of the graph that `root` reaches, a
/// part of `size + 1` nodes: `size` distinct edges of the graph that
/// connect `root` to all of it.
pub open spec fn is_spanning_tree(edges: Seq<Edge>, root: int, size: nat, s: Seq<Edge>) -> bool {
    &&& s.no_duplicates()
    &&& s.len() == size
    &&& forall|i: int| 0 <= i < s.len() ==> edges.contains(#[trigger] s[i])
    &&& spans(s, root, edges)
}

pub proof fn lemma_tied_self(s: Seq<Edge>, a: int)
    ensures
        tied(s, a, a),
{
    assert(leads(s, seq![a], a, a));
}

pub proof fn lemma_tied_link(s: Seq<Edge>, a: int, b: int)
    requires
        linked(s, a, b),
    ensures
        tied(s, a, b),
{
    let p = seq![a, b];
    assert forall|i: int| 0 <= i < p.len() - 1 implies linked(s, #[trigger] p[i], p[i + 1]) by {
        assert(p[0] == a && p[1] == b);
    }
    assert(leads(s, p, a, b));
}

pub proof fn lemma_tied_trans(s: Seq<Edge>, a: int, b: int, c: int)
    requires
        tied(s, a, b),
        tied(s, b, c),
    ensures
        tied(s, a, c),
{
    let first = choose|p: Seq<int>| leads(s, p, a, b);
    let second = choose|p: Seq<int>| leads(s, p, b, c);
    let t = second.subrange(1, second.len() as int);
    let p = first + t;
    assert forall|i: int| 0 <= i < p.len() - 1 implies linked(s, #[trigger] p[i], p[i + 1]) by {
        if i + 1 < first.len() {
            assert(p[i] == first[i] && p[i + 1] == first[i + 1]);
        } else if i + 1 == first.len() {
            assert(p[i] == second[0]);
            assert(p[i + 1] == second[1]);
            assert(linked(s, second[0], second[0 + 1int]));
        } else {
            let m = i - first.len() + 1;
            assert(p[i] == second[m]);
            assert(p[i + 1] == second[m + 1]);
        }
    }
    assert(p.last() == c) by {
        if t.len() > 0 {
            assert(p.last() == second.last());
        }
    }
    assert(leads(s, p, a, c));
}

pub proof fn lemma_tied_sym(s: Seq<Edge>, a: int, b: int)
    requires
        tied(s, a, b),
    ensures
        tied(s, b, a),
{
    let p = choose|p: Seq<int>| leads(s, p, a, b);
    let n = p.len() as int;
    let q = Seq::new(p.len(), |i: int| p[n - 1 - i]);
    assert forall|i: int| 0 <= i < q.len() - 1 implies linked(s, #[trigger] q[i], q[i + 1]) by {
        let m = n - 2 - i;
        assert(linked(s, p[m], p[m + 1]));
        let c = choose|c: int| 0 <= c < s.len() && joins(#[trigger] s[c], p[m], p[m + 1]);
        assert(joins(s[c], q[i], q[i + 1]));
    }
    assert(leads(s, q, b, a));
}

/// Where every link of `s` is a connection of `s2`, every trail of `s`
/// is one.
pub proof fn lemma_trail_carries(s: Seq<Edge>, s2: Seq<Edge>, p: Seq<int>)
    requires
        forall|a: int, b: int| #[trigger] linked(s, a, b) ==> tied(s2, a, b),
        is_trail(s, p),
    ensures
        tied(s2, p[0], p.last()),
    decreases p.len(),
{
    if p.len() == 1 {
        lemma_tied_self(s2, p[0]);
    } else {
        let q = p.drop_last();
        assert forall|i: int| 0 <= i < q.len() - 1 implies linked(s, #[trigger] q[i], q[i + 1]) by {
            assert(q[i] == p[i] && q[i + 1] == p[i + 1]);
        }
        lemma_trail_carries(s, s2, q);
        let m = p.len() - 2;
        assert(linked(s, p[m], p[m + 1]));
        assert(q.last() == p[m]);
        lemma_tied_trans(s2, p[0], p[m], p.last());
    }
}

/// Where every link of `s` is a connection of `s2`, whatever `s` connects
/// `s2` connects.
pub proof fn lemma_tied_carries(s: Seq<Edge>, s2: Seq<Edge>, a: int, b: int)
    requires
        forall|x: int, y: int| #[trigger] linked(s, x, y) ==> tied(s2, x, y),
        tied(s, a, b),
    ensures
        tied(s2, a, b),
{
    let p = choose|p: Seq<int>| leads(s, p, a, b);
    lemma_trail_carries(s, s2, p);
}

/// A trail can be cut down to one that visits no node twice.
pub proof fn simple_trail(s: Seq<Edge>, p: Seq<int>) -> (q: Seq<int>)
    requires
        is_trail(s, p),
    ensures
        is_trail(s, q),
        q[0] == p[0],
        q.last() == p.last(),
        q.no_duplicates(),
    decreases p.len(),
{
    if p.no_duplicates() {
        p
    } else {
        let (i, j) = choose|i: int, j: int|
            0 <= i < p.len() && 0 <= j < p.len() && i != j && p[i] == p[j];
        let (lo, hi) = if i < j {
            (i, j)
        } else {
            (j, i)
        };
        let head = p.take(lo + 1);
        let tail = p.skip(hi + 1);
        let cut = head + tail;
        assert forall|m: int| 0 <= m < cut.len() - 1 implies linked(
            s,
            #[trigger] cut[m],
            cut[m + 1],
        ) by {
            if m < lo {
                assert(cut[m] == p[m] && cut[m + 1] == p[m + 1]);
            } else if m == lo {
                assert(cut[m] == p[lo]);
                assert(cut[m + 1] == p[hi + 1]);
                assert(linked(s, p[hi], p[hi + 1]));
            } else {
                let r = m - lo + hi;
                assert(cut[m] == p[r]);
                assert(cut[m + 1] == p[r + 1]);
            }
        }
        assert(cut.last() == p.last()) by {
            if hi + 1 < p.len() {
                assert(cut.last() == tail.last());
            } else {
                assert(cut =~= head);
            }
        }
        assert(cut[0] == p[0]);
        simple_trail(s, cut)
    }
}

/// A trail that starts inside a set and ends outside crosses its border.
pub proof fn crossing_index(inside: Set<int>, p: Seq<int>, from: int) -> (i: int)
    requires
        0 <= from < p.len(),
        inside.contains(p[from]),
        !inside.contains(p.last()),
    ensures
        from <= i < p.len() - 1,
        inside.contains(p[i]),
        !inside.contains(p[i + 1]),
    decreases p.len() - from,
{
    if !inside.contains(p[from + 1]) {
        from
    } else {
        crossing_index(inside, p, from + 1)
    }
}

/// Replacing an edge changes the summed weight by the difference of the
/// two weights.
pub proof fn lemma_weight_update(s: Seq<Edge>, j: int, e: Edge)
    requires
        0 <= j < s.len(),
    ensures
        total_weight(s.update(j, e)) == total_weight(s) - s[j].weight + e.weight,
    decreases s.len(),
{
    let u = s.update(j, e);
    if j == s.len() - 1 {
        assert(u.drop_last() =~= s.drop_last());
    } else {
        assert(u.drop_last() =~= s.drop_last().update(j, e));
        lemma_weight_update(s.drop_last(), j, e);
    }
}

/// `s` with the edges at `j` and `k` exchanged.
pub open spec fn swapped(s: Seq<Edge>, j: int, k: int) -> Seq<Edge> {
    s.update(j, s[k]).update(k, s[j])
}

/// Exchanging two positions changes neither the edges nor their weight.
pub proof fn lemma_swapped(s: Seq<Edge>, j: int, k: int)
    requires
        0 <= j < s.len(),
        0 <= k < s.len(),
    ensures
        total_weight(swapped(s, j, k)) == total_weight(s),
        swapped(s, j, k).len() == s.len(),
        s.no_duplicates() ==> swapped(s, j, k).no_duplicates(),
        forall|e: Edge| s.contains(e) ==> swapped(s, j, k).contains(e),
        forall|a: int, b: int| #[trigger] linked(s, a, b) ==> linked(swapped(s, j, k), a, b),
{
    let u = s.update(j, s[k]);
    let w = swapped(s, j, k);
    lemma_weight_update(s, j, s[k]);
    lemma_weight_update(u, k, s[j]);
    assert(forall|m: int|
        0 <= m < s.len() ==> w[m] == (if m == k {
            s[j]
        } else if m == j {
            s[k]
        } else {
            s[m]
        }));
    assert forall|e: Edge| s.contains(e) implies w.contains(e) by {
        let m = choose|m: int| 0 <= m < s.len() && s[m] == e;
        let m2 = if m == j {
            k
        } else if m == k {
            j
        } else {
            m
        };
        assert(w[m2] == e);
    }
    assert forall|a: int, b: int| #[trigger] linked(s, a, b) implies linked(w, a, b) by {
        let m = choose|m: int| 0 <= m < s.len() && joins(#[trigger] s[m], a, b);
        let m2 = if m == j {
            k
        } else if m == k {
            j
        } else {
            m
        };
        assert(joins(w[m2], a, b));
    }
    if s.no_duplicates() {
        assert forall|x: int, y: int| 0 <= x < w.len() && 0 <= y < w.len() && x != y implies w[x]
            != w[y] by {
            let x2 = if x == j {
                k
            } else if x == k {
                j
            } else {
                x
            };
            let y2 = if y == j {
                k
            } else if y == k {
                j
            } else {
                y
            };
            assert(w[x] == s[x2] && w[y] == s[y2]);
            assert(x2 != y2);
        }
    }
}

/// The exchange step: where the edge `s[j]` lies on a trail without
/// repeated nodes whose two ends `t` joins, replacing `s[j]` by `t` breaks
/// no connection.
pub proof fn lemma_exchange(s: Seq<Edge>, j: int, t: Edge, p: Seq<int>, i: int)
    requires
        0 <= j < s.len(),
        is_trail(s, p),
        p.no_duplicates(),
        0 <= i < p.len() - 1,
        joins(s[j], p[i], p[i + 1]),
        joins(t, p[0], p.last()),
    ensures
        forall|a: int, b: int| #[trigger] linked(s, a, b) ==> tied(s.update(j, t), a, b),
{
    let s2 = s.update(j, t);
    let x = p[i];
    let y = p[i + 1];
    let head = p.take(i + 1);
    let tail = p.skip(i + 1);
    assert(x != y);
    assert forall|m: int| 0 <= m < head.len() - 1 implies linked(
        s2,
        #[trigger] head[m],
        head[m + 1],
    ) by {
        assert(head[m] == p[m] && head[m + 1] == p[m + 1]);
        assert(linked(s, p[m], p[m + 1]));
        let r = choose|r: int| 0 <= r < s.len() && joins(#[trigger] s[r], p[m], p[m + 1]);
        if r == j {
            assert(p[m] == p[i] || p[m] == p[i + 1]);
        }
        assert(joins(s2[r], head[m], head[m + 1]));
    }
    assert(leads(s2, head, p[0], x));
    assert forall|m: int| 0 <= m < tail.len() - 1 implies linked(
        s2,
        #[trigger] tail[m],
        tail[m + 1],
    ) by {
        let n = m + i + 1;
        assert(tail[m] == p[n] && tail[m + 1] == p[n + 1]);
        assert(linked(s, p[n], p[n + 1]));
        let r = choose|r: int| 0 <= r < s.len() && joins(#[trigger] s[r], p[n], p[n + 1]);
        if r == j {
            assert(p[n + 1] == p[i] || p[n + 1] == p[i + 1]);
        }
        assert(joins(s2[r], tail[m], tail[m + 1]));
    }
    assert(tail.last() == p.last());
    assert(leads(s2, tail, y, p.last()));
    assert(joins(s2[j], p[0], p.last()));
    lemma_tied_link(s2, p[0], p.last());
    lemma_tied_sym(s2, p[0], x);
    lemma_tied_trans(s2, x, p[0], p.last());
    lemma_tied_sym(s2, y, p.last());
    lemma_tied_trans(s2, x, p.last(), y);
    lemma_tied_sym(s2, x, y);
    assert forall|a: int, b: int| #[trigger] linked(s, a, b) implies tied(s2, a, b) by {
        let r = choose|r: int| 0 <= r < s.len() && joins(#[trigger] s[r], a, b);
        if r == j {
            assert((a == x && b == y) || (a == y && b == x));
        } else {
            assert(joins(s2[r], a, b));
            lemma_tied_link(s2, a, b);
        }
    }
}

/// The reached nodes only grow with the edges counted.
pub proof fn lemma_reached_grows(root: int, tree: Seq<Edge>, a: int, b: int, v: int)
    requires
        a <= b,
        reached(root, tree, a).contains(v),
    ensures
        reached(root, tree, b).contains(v),
    decreases b - a,
{
    if a < b {
        lemma_reached_grows(root, tree, a, b - 1, v);
    }
}

/// Both ends of the `m`-th tree edge are reached once it is counted.
pub proof fn lemma_edge_inside(root: int, tree: Seq<Edge>, m: int, k: int)
    requires
        0 <= m < k,
    ensures
        reached(root, tree, k).contains(tree[m].start_id as int),
        reached(root, tree, k).contains(tree[m].end_id as int),
{
    lemma_reached_grows(root, tree, m + 1, k, tree[m].start_id as int);
    lemma_reached_grows(root, tree, m + 1, k, tree[m].end_id as int);
}

/// Every reached node is connected to the root, by the tree and by the
/// graph.
pub proof fn lemma_reached_tied(edges: Seq<Edge>, root: int, tree: Seq<Edge>, k: int, v: int)
    requires
        is_prim_tree(edges, root, tree),
        0 <= k <= tree.len(),
        reached(root, tree, k).contains(v),
    ensures
        tied(tree, root, v),
        tied(edges, root, v),
    decreases k,
{
    if k == 0 {
        lemma_tied_self(tree, root);
        lemma_tied_self(edges, root);
    } else if reached(root, tree, k - 1).contains(v) {
        lemma_reached_tied(edges, root, tree, k - 1, v);
    } else {
        let n = k - 1;
        let t = tree[n];
        let inside = reached(root, tree, n);
        assert(picked_at(edges, root, tree, n));
        let c = choose|c: int| #[trigger] is_pick(edges, inside, c) && edges[c] == tree[n];
        assert(crosses(inside, t));
        let u = if v == t.start_id as int {
            t.end_id as int
        } else {
            t.start_id as int
        };
        assert(inside.contains(u));
        lemma_reached_tied(edges, root, tree, n, u);
        assert(joins(tree[n], u, v));
        assert(joins(edges[c], u, v));
        lemma_tied_link(tree, u, v);
        lemma_tied_link(edges, u, v);
        lemma_tied_trans(tree, root, u, v);
        lemma_tied_trans(edges, root, u, v);
    }
}

/// Every tree edge brings in one node: the root and the first `k` edges
/// of the tree reach `k + 1` nodes.
pub proof fn lemma_reached_count(edges: Seq<Edge>, root: int, tree: Seq<Edge>, k: int)
    requires
        is_prim_tree(edges, root, tree),
        0 <= k <= tree.len(),
    ensures
        reached(root, tree, k).finite(),
        reached(root, tree, k).len() == k + 1,
    decreases k,
{
    if k > 0 {
        let n = k - 1;
        let inside = reached(root, tree, n);
        lemma_reached_count(edges, root, tree, n);
        assert(picked_at(edges, root, tree, n));
        let c = choose|c: int| #[trigger] is_pick(edges, inside, c) && edges[c] == tree[n];
        assert(crosses(inside, tree[n]));
        let a = tree[n].start_id as int;
        let b = tree[n].end_id as int;
        if inside.contains(a) {
            assert(inside.insert(a) =~= inside);
        } else {
            assert(inside.insert(a).insert(b) =~= inside.insert(a));
        }
    }
}

/// A trail that starts inside a set which no edge leaves stays inside.
pub proof fn lemma_trail_inside(edges: Seq<Edge>, inside: Set<int>, p: Seq<int>, i: int)
    requires
        forall|j: int| 0 <= j < edges.len() ==> !crosses(inside, #[trigger] edges[j]),
        is_trail(edges, p),
        inside.contains(p[0]),
        0 <= i < p.len(),
    ensures
        inside.contains(p[i]),
    decreases i,
{
    if i > 0 {
        lemma_trail_inside(edges, inside, p, i - 1);
        let m = i - 1;
        assert(linked(edges, p[m], p[m + 1]));
        let c = choose|c: int| 0 <= c < edges.len() && joins(#[trigger] edges[c], p[m], p[m + 1]);
        assert(!crosses(inside, edges[c]));
    }
}

/// The tree of Prim's algorithm is a spanning tree of the part of the
/// graph that the root reaches: its edges are distinct edges of the graph,
/// and they connect the root to every node the graph connects it to.
pub proof fn lemma_prim_tree_spans(edges: Seq<Edge>, root: int, tree: Seq<Edge>)
    requires
        is_prim_tree(edges, root, tree),
    ensures
        is_spanning_tree(edges, root, tree.len(), tree),
{
    let all = reached(root, tree, tree.len() as int);
    assert forall|a: int, b: int| 0 <= a < tree.len() && 0 <= b < tree.len() && a != b implies tree[a]
        != tree[b] by {
        let (lo, hi) = if a < b {
            (a, b)
        } else {
            (b, a)
        };
        lemma_edge_inside(root, tree, lo, hi);
        assert(picked_at(edges, root, tree, hi));
        let c = choose|c: int| #[trigger]
            is_pick(edges, reached(root, tree, hi), c) && edges[c] == tree[hi];
        assert(crosses(reached(root, tree, hi), tree[hi]));
    }
    assert forall|i: int| 0 <= i < tree.len() implies edges.contains(#[trigger] tree[i]) by {
        assert(picked_at(edges, root, tree, i));
        let c = choose|c: int| #[trigger]
            is_pick(edges, reached(root, tree, i), c) && edges[c] == tree[i];
    }
    assert forall|v: int| tied(edges, root, v) implies #[trigger] tied(tree, root, v) by {
        let p = choose|p: Seq<int>| leads(edges, p, root, v);
        lemma_reached_grows(root, tree, 0, tree.len() as int, root);
        lemma_trail_inside(edges, all, p, p.len() - 1);
        lemma_reached_tied(edges, root, tree, tree.len() as int, v);
    }
}

/// Turns the spanning tree `s` into one that agrees with `tree` on the
/// first `k` edges and weighs no more than `s`.
proof fn absorb(edges: Seq<Edge>, root: int, tree: Seq<Edge>, s: Seq<Edge>, k: int) -> (r: Seq<Edge>)
    requires
        is_prim_tree(edges, root, tree),
        is_spanning_tree(edges, root, tree.len(), s),
        0 <= k <= tree.len(),
    ensures
        is_spanning_tree(edges, root, tree.len(), r),
        forall|i: int| 0 <= i < k ==> r[i] == tree[i],
        total_weight(r) <= total_weight(s),
    decreases k,
{
    if k == 0 {
        return s;
    }
    let n = k - 1;
    let s1 = absorb(edges, root, tree, s, n);
    let t = tree[n];
    let inside = reached(root, tree, n);
    assert(picked_at(edges, root, tree, n));
    let c = choose|c: int| #[trigger] is_pick(edges, inside, c) && edges[c] == tree[n];
    lemma_prim_tree_spans(edges, root, tree);
    assert(edges.contains(t));
    let (mid, j) = if s1.contains(t) {
        let j = choose|j: int| 0 <= j < s1.len() && s1[j] == t;
        if j < n {
            assert(s1[j] == tree[j]);
        }
        (s1, j)
    } else {
        let a = if inside.contains(t.start_id as int) {
            t.start_id as int
        } else {
            t.end_id as int
        };
        let b = if inside.contains(t.start_id as int) {
            t.end_id as int
        } else {
            t.start_id as int
        };
        assert(crosses(inside, t));
        assert(inside.contains(a) && !inside.contains(b));
        assert(joins(t, a, b));
        lemma_reached_tied(edges, root, tree, n, a);
        assert(joins(edges[c], a, b));
        lemma_tied_link(edges, a, b);
        lemma_tied_trans(edges, root, a, b);
        assert(tied(s1, root, a));
        assert(tied(s1, root, b));
        lemma_tied_sym(s1, root, a);
        lemma_tied_trans(s1, a, root, b);
        let p0 = choose|p: Seq<int>| leads(s1, p, a, b);
        let p = simple_trail(s1, p0);
        let i = crossing_index(inside, p, 0);
        assert(linked(s1, p[i], p[i + 1]));
        let j = choose|j: int| 0 <= j < s1.len() && joins(#[trigger] s1[j], p[i], p[i + 1]);
        assert(crosses(inside, s1[j]));
        if j < n {
            assert(s1[j] == tree[j]);
            lemma_edge_inside(root, tree, j, n);
        }
        assert(edges.contains(s1[j]));
        let d = choose|d: int| 0 <= d < edges.len() && edges[d] == s1[j];
        assert(crosses(inside, edges[d]));
        assert(t.weight <= s1[j].weight);
        lemma_exchange(s1, j, t, p, i);
        let s2 = s1.update(j, t);
        lemma_weight_update(s1, j, t);
        assert forall|x: int, y: int| 0 <= x < s2.len() && 0 <= y < s2.len() && x != y implies s2[x]
            != s2[y] by {
            if x == j {
                assert(s1[y] != t);
            } else if y == j {
                assert(s1[x] != t);
            } else {
                assert(s1[x] != s1[y]);
            }
        }
        assert forall|m: int| 0 <= m < s2.len() implies edges.contains(#[trigger] s2[m]) by {
            if m != j {
                assert(s2[m] == s1[m]);
            }
        }
        assert forall|v: int| tied(edges, root, v) implies #[trigger] tied(s2, root, v) by {
            assert(tied(s1, root, v));
            lemma_tied_carries(s1, s2, root, v);
        }
        assert forall|m: int| 0 <= m < n implies s2[m] == tree[m] by {
            assert(s1[m] == tree[m]);
        }
        (s2, j)
    };
    assert(is_spanning_tree(edges, root, tree.len(), mid));
    assert(n <= j < mid.len() && mid[j] == t);
    assert(total_weight(mid) <= total_weight(s));
    lemma_swapped(mid, j, n);
    let r = swapped(mid, j, n);
    assert forall|a: int, b: int| #[trigger] linked(mid, a, b) implies tied(r, a, b) by {
        lemma_tied_link(r, a, b);
    }
    assert forall|v: int| tied(edges, root, v) implies #[trigger] tied(r, root, v) by {
        assert(tied(mid, root, v));
        lemma_tied_carries(mid, r, root, v);
    }
    assert forall|m: int| 0 <= m < r.len() implies edges.contains(#[trigger] r[m]) by {
        let m2 = if m == j {
            n
        } else if m == n {
            j
        } else {
            m
        };
        assert(r[m] == mid[m2]);
        assert(edges.contains(mid[m2]));
    }
    assert forall|m: int| 0 <= m < k implies r[m] == tree[m] by {
        if m < n {
            assert(r[m] == mid[m]);
        }
    }
    r
}

/// No spanning tree is lighter than the tree of Prim's algorithm: the
/// summed weight of `tree` is at most that of any `s` made of as many
/// distinct edges of the graph that connect the root to every node the
/// graph connects it to.
pub proof fn lemma_prim_tree_is_minimal(edges: Seq<Edge>, root: int, tree: Seq<Edge>, s: Seq<Edge>)
    requires
        is_prim_tree(edges, root, tree),
        is_spanning_tree(edges, root, tree.len(), s),
    ensures
        total_weight(tree) <= total_weight(s),
{
    let r = absorb(edges, root, tree, s, tree.len() as int);
    assert(r =~= tree);
}

} // verus!
