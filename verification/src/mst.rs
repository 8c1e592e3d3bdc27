//! The spanning-tree solver: Prim's algorithm over the graph of a maze.

use crate::graph::{Edge, Edges, Nodes};
use crate::graph_build::is_graph;
use crate::grid::Maze;
use crate::mask::{count_false, lemma_count_false_none, lemma_count_false_set};
use vstd::prelude::*;

verus! {

/// The nodes that the root and the first `k` edges of `tree` touch.
pub open spec fn reached(root: int, tree: Seq<Edge>, k: int) -> Set<int>
    decreases k,
{
    if k <= 0 {
        set![root]
    } else {
        reached(root, tree, k - 1).insert(tree[k - 1].start_id as int).insert(
            tree[k - 1].end_id as int,
        )
    }
}

/// `e` has exactly one end among `inside`.
pub open spec fn crosses(inside: Set<int>, e: Edge) -> bool {
    inside.contains(e.start_id as int) != inside.contains(e.end_id as int)
}

/// `edges[i]` is the edge the solver takes next: it crosses from `inside`
/// to the outside, no crossing edge is lighter, and of the lightest
/// crossing edges it comes first.
pub open spec fn is_pick(edges: Seq<Edge>, inside: Set<int>, i: int) -> bool {
    &&& 0 <= i < edges.len()
    &&& crosses(inside, edges[i])
    &&& forall|j: int|
        0 <= j < edges.len() && crosses(inside, #[trigger] edges[j]) ==> edges[i].weight
            <= edges[j].weight
    &&& forall|j: int|
        0 <= j < i && crosses(inside, #[trigger] edges[j]) ==> edges[i].weight < edges[j].weight
}

/// The `k`-th edge of `tree` was the solver's pick when its turn came.
pub open spec fn picked_at(edges: Seq<Edge>, root: int, tree: Seq<Edge>, k: int) -> bool {
    exists|i: int| #[trigger] is_pick(edges, reached(root, tree, k), i) && edges[i] == tree[k]
}

/// `tree` is what Prim's algorithm builds from `root` over `edges`: every
/// edge was the pick of its turn, and when the solver stopped no edge
/// crossed from the reached nodes to the others.
pub open spec fn is_prim_tree(edges: Seq<Edge>, root: int, tree: Seq<Edge>) -> bool {
    &&& forall|k: int| 0 <= k < tree.len() ==> #[trigger] picked_at(edges, root, tree, k)
    &&& forall|j: int|
        0 <= j < edges.len() ==> !crosses(
            reached(root, tree, tree.len() as int),
            #[trigger] edges[j],
        )
}

/// The summed weight of `edges`.
pub open spec fn total_weight(edges: Seq<Edge>) -> int
    decreases edges.len(),
{
    if edges.len() == 0 {
        0
    } else {
        total_weight(edges.drop_last()) + edges.last().weight
    }
}

/// The nodes marked in `visited`.
pub open spec fn marked(visited: Seq<bool>) -> Set<int> {
    Set::new(|v: int| 0 <= v < visited.len() && visited[v])
}

/// The reached nodes depend only on the edges counted.
pub proof fn lemma_reached_prefix(root: int, t1: Seq<Edge>, t2: Seq<Edge>, k: int)
    requires
        k <= t1.len(),
        k <= t2.len(),
        forall|i: int| 0 <= i < k ==> t1[i] == t2[i],
    ensures
        reached(root, t1, k) == reached(root, t2, k),
    decreases k,
{
    if k > 0 {
        lemma_reached_prefix(root, t1, t2, k - 1);
    }
}

/// The lightest edge of `edges` with exactly one end marked in `visited`,
/// the first one among equals.
fn lightest_crossing(edges: &Edges, visited: &Vec<bool>) -> (best: Option<usize>)
    requires
        forall|j: int|
            0 <= j < edges.seq().len() ==> (#[trigger] edges.seq()[j]).start_id < visited@.len()
                && edges.seq()[j].end_id < visited@.len(),
    ensures
        match best {
            Some(i) => is_pick(edges.seq(), marked(visited@), i as int),
            None => forall|j: int|
                0 <= j < edges.seq().len() ==> !crosses(marked(visited@), #[trigger] edges.seq()[j]),
        },
{
    let mut best: Option<usize> = None;
    let mut j: usize = 0;
    while j < edges.len()
        invariant
            j <= edges.seq().len(),
            forall|m: int|
                0 <= m < edges.seq().len() ==> (#[trigger] edges.seq()[m]).start_id < visited@.len()
                    && edges.seq()[m].end_id < visited@.len(),
            match best {
                Some(i) => {
                    &&& i < j
                    &&& crosses(marked(visited@), edges.seq()[i as int])
                    &&& forall|m: int|
                        0 <= m < j && crosses(marked(visited@), #[trigger] edges.seq()[m])
                            ==> edges.seq()[i as int].weight <= edges.seq()[m].weight
                    &&& forall|m: int|
                        0 <= m < i && crosses(marked(visited@), #[trigger] edges.seq()[m])
                            ==> edges.seq()[i as int].weight < edges.seq()[m].weight
                },
                None => forall|m: int|
                    0 <= m < j ==> !crosses(marked(visited@), #[trigger] edges.seq()[m]),
            },
        decreases edges.seq().len() - j,
    {
        let edge = edges.get(j);
        let crossing = visited[edge.start_id] != visited[edge.end_id];
        assert(crossing == crosses(marked(visited@), edge));
        if crossing {
            let lighter = match best {
                Some(i) => edge.weight < edges.get(i).weight,
                None => true,
            };
            if lighter {
                best = Some(j);
            }
        }
        j += 1;
    }
    best
}

/// Prim's algorithm from `root` over a graph of `node_count` nodes: while
/// a node is left to reach, the lightest edge with exactly one end reached
/// joins the tree, the first one among equals; the solver stops early when
/// no edge leaves the reached nodes.
pub fn minimum_spanning_tree(node_count: usize, root: usize, edges: &Edges) -> (tree: Edges)
    requires
        root < node_count,
        forall|j: int|
            0 <= j < edges.seq().len() ==> (#[trigger] edges.seq()[j]).start_id < node_count
                && edges.seq()[j].end_id < node_count,
    ensures
        tree.wf(),
        is_prim_tree(edges.seq(), root as int, tree.seq()),
{
    let mut visited: Vec<bool> = vec![false; node_count];
    proof {
        crate::mask::lemma_count_false_all(visited@);
        lemma_count_false_set(visited@, root as int);
    }
    visited.set(root, true);
    let mut visited_count: usize = 1;
    let mut items: Vec<Edge> = Vec::new();
    let mut stuck = false;
    proof {
        assert(marked(visited@) =~= reached(root as int, items@, 0));
    }
    while visited_count < node_count && !stuck
        invariant
            root < node_count,
            visited@.len() == node_count,
            forall|j: int|
                0 <= j < edges.seq().len() ==> (#[trigger] edges.seq()[j]).start_id < node_count
                    && edges.seq()[j].end_id < node_count,
            marked(visited@) == reached(root as int, items@, items@.len() as int),
            visited_count + count_false(visited@) == node_count,
            items@.no_duplicates(),
            forall|k: int|
                0 <= k < items@.len() ==> #[trigger] picked_at(edges.seq(), root as int, items@, k),
            forall|k: int|
                0 <= k < items@.len() ==> marked(visited@).contains(
                    (#[trigger] items@[k]).start_id as int,
                ) && marked(visited@).contains(items@[k].end_id as int),
            stuck ==> forall|j: int|
                0 <= j < edges.seq().len() ==> !crosses(marked(visited@), #[trigger] edges.seq()[j]),
        decreases count_false(visited@), (if stuck { 0int } else { 1int }),
    {
        match lightest_crossing(edges, &visited) {
            None => {
                stuck = true;
            },
            Some(i) => {
                let edge = edges.get(i);
                let ghost before = items@;
                let ghost inside = marked(visited@);
                let ghost flags = visited@;
                proof {
                    if !flags[edge.start_id as int] {
                        lemma_count_false_set(flags, edge.start_id as int);
                        assert(flags.update(edge.start_id as int, true).update(
                            edge.end_id as int,
                            true,
                        ) =~= flags.update(edge.start_id as int, true));
                    } else {
                        assert(flags.update(edge.start_id as int, true) =~= flags);
                        lemma_count_false_set(flags, edge.end_id as int);
                    }
                }
                visited.set(edge.start_id, true);
                visited.set(edge.end_id, true);
                items.push(edge);
                visited_count += 1;
                proof {
                    let now = items@;
                    let n = before.len() as int;
                    assert forall|k: int| 0 <= k <= n implies reached(root as int, now, k)
                        == reached(root as int, before, k) by {
                        lemma_reached_prefix(root as int, now, before, k);
                    }
                    assert(marked(visited@) =~= reached(root as int, now, n + 1));
                    assert forall|k: int| 0 <= k < now.len() implies #[trigger] picked_at(
                        edges.seq(),
                        root as int,
                        now,
                        k,
                    ) by {
                        if k < n {
                            assert(picked_at(edges.seq(), root as int, before, k));
                            let c = choose|c: int| #[trigger]
                                is_pick(edges.seq(), reached(root as int, before, k), c)
                                    && edges.seq()[c] == before[k];
                            assert(is_pick(edges.seq(), reached(root as int, now, k), c));
                            assert(now[k] == before[k]);
                        } else {
                            assert(is_pick(edges.seq(), reached(root as int, now, k), i as int));
                        }
                    }
                    assert forall|a: int, b: int|
                        0 <= a < now.len() && 0 <= b < now.len() && a != b implies now[a]
                        != now[b] by {
                        if a == n {
                            assert(inside.contains(before[b].start_id as int) && inside.contains(
                                before[b].end_id as int,
                            ));
                        } else if b == n {
                            assert(inside.contains(before[a].start_id as int) && inside.contains(
                                before[a].end_id as int,
                            ));
                        } else {
                            assert(before[a] != before[b]);
                        }
                    }
                    assert forall|k: int| 0 <= k < now.len() implies marked(visited@).contains(
                        (#[trigger] now[k]).start_id as int,
                    ) && marked(visited@).contains(now[k].end_id as int) by {
                        if k < n {
                            assert(now[k] == before[k]);
                            assert(inside.contains(before[k].start_id as int) && inside.contains(
                                before[k].end_id as int,
                            ));
                        } else {
                            assert(now[k] == edge);
                        }
                    }
                }
            },
        }
    }
    proof {
        if !stuck {
            assert forall|j: int| 0 <= j < edges.seq().len() implies !crosses(
                marked(visited@),
                #[trigger] edges.seq()[j],
            ) by {
                lemma_count_false_none(visited@, edges.seq()[j].start_id as int);
                lemma_count_false_none(visited@, edges.seq()[j].end_id as int);
            }
        }
    }
    Edges::from_distinct(items)
}

/// `tree` is the solver's tree for the maze graph with node list `nodes`,
/// whose edges the solver went through in the order `edges`: grown from
/// node 0, the centre, or empty where the graph is.
pub open spec fn is_maze_tree(
    g: crate::grid::Grid,
    nodes: Seq<crate::pos::Pos>,
    edges: Seq<Edge>,
    tree: Seq<Edge>,
) -> bool {
    &&& edges.no_duplicates()
    &&& is_graph(g, nodes, edges.to_set())
    &&& if nodes.len() == 0 {
        tree.len() == 0
    } else {
        is_prim_tree(edges, 0, tree)
    }
}

/// The summed weight of the edges of `edges`.
pub fn weight_of(edges: &Edges) -> (sum: i128)
    ensures
        sum == total_weight(edges.seq()),
{
    let mut sum: i128 = 0;
    let mut j: usize = 0;
    while j < edges.len()
        invariant
            j <= edges.seq().len(),
            sum == total_weight(edges.seq().take(j as int)),
            -0x8000_0000 * j <= sum <= 0x8000_0000 * j,
        decreases edges.seq().len() - j,
    {
        let edge = edges.get(j);
        proof {
            assert(edges.seq().take(j + 1).drop_last() =~= edges.seq().take(j as int));
        }
        sum = sum + edge.weight as i128;
        j += 1;
    }
    proof {
        assert(edges.seq().take(j as int) =~= edges.seq());
    }
    sum
}

impl Maze {
    /// The minimum spanning tree of the maze's graph, grown from the centre
    /// node by Prim's algorithm, beside the nodes of the graph. Where the
    /// graph is empty, so is the tree; where the graph is not connected,
    /// the tree spans the part that the centre reaches.
    pub fn mst_prim(&self) -> (r: (Nodes, Edges))
        requires
            self.wf(),
            9 * self@.width * self@.height <= i32::MAX,
        ensures
            r.0.wf(),
            r.1.wf(),
            exists|edges: Seq<Edge>| is_maze_tree(self@, r.0@, edges, r.1.seq()),
    {
        let (nodes, edges) = self.build_graph();
        let center = self.center();
        let ghost all = edges.seq();
        proof {
            assert(is_graph(self@, nodes@, all.to_set()));
            if nodes@.len() > 0 {
                assert(nodes@[0] == center);
                assert(nodes@.contains(center));
            }
        }
        match nodes.get(&center) {
            None => {
                let tree = Edges::new();
                let r = (nodes, tree);
                assert(is_maze_tree(self@, r.0@, all, r.1.seq()));
                r
            },
            Some(root) => {
                proof {
                    assert(nodes@[0] == center);
                    assert(root == 0);
                    assert forall|j: int| 0 <= j < edges.seq().len() implies (
                    #[trigger] edges.seq()[j]).start_id < nodes@.len() && edges.seq()[j].end_id
                        < nodes@.len() by {
                        let e = edges.seq()[j];
                        assert(edges@.contains(e));
                        assert(crate::graph_build::is_graph_edge(self@, nodes@, e));
                        let k = choose|k: int|
                            0 <= k < 4 && #[trigger] crate::graph_build::is_first_toward(
                                self@,
                                nodes@,
                                k,
                                e,
                            );
                        let c = choose|c: Seq<crate::pos::Pos>| #[trigger]
                            crate::graph_build::runs_along(self@, nodes@, k, c, e);
                    }
                }
                let tree = minimum_spanning_tree(nodes.len(), root, &edges);
                let r = (nodes, tree);
                assert(is_maze_tree(self@, r.0@, all, r.1.seq()));
                r
            },
        }
    }
}

} // verus!
