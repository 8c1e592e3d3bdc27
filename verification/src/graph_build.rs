//! The graph builder: node discovery and corridor following.

use crate::cell::CellType;
use crate::graph::{Edge, Edges, Nodes};
use crate::grid::{Grid, Maze};
use crate::mask::CellMap;
use crate::pos::{dir_dx, dir_dy, lemma_distinct_cells_bounded, row_major_lt, Pos};
use vstd::prelude::*;

verus! {

/// Column `x` holds an `Exit` cell.
pub open spec fn has_exit_in_column(g: Grid, x: usize) -> bool {
    exists|y: usize| y < g.height && #[trigger] g.at(Pos { x, y }) == CellType::Exit
}

/// `p` is the topmost `Exit` cell of its column.
pub open spec fn first_exit_in_column(g: Grid, p: Pos) -> bool {
    &&& g.contains(p)
    &&& g.at(p) == CellType::Exit
    &&& forall|y: usize| y < p.y ==> #[trigger] g.at(Pos { x: p.x, y }) != CellType::Exit
}

/// `e` is the exit the graph builder settles on: the topmost `Exit` cell of
/// the right border column, else that of the left border column, else none.
pub open spec fn graph_exit(g: Grid, e: Option<Pos>) -> bool {
    match e {
        Some(p) => first_exit_in_column(g, p) && (p.x == g.width - 1 || (p.x == 0
            && !has_exit_in_column(g, (g.width - 1) as usize))),
        None => !has_exit_in_column(g, 0) && !has_exit_in_column(g, (g.width - 1) as usize),
    }
}

/// The neighbour of `p` in direction `k` is not a wall.
pub open spec fn open_toward(g: Grid, p: Pos, k: int) -> bool {
    g.at(p.neighbor(k)) != CellType::Wall
}

/// How many of the four neighbours of `p` are traversable.
pub open spec fn open_neighbors(g: Grid, p: Pos) -> int {
    (if open_toward(g, p, 0) { 1int } else { 0 }) + (if open_toward(g, p, 1) { 1int } else { 0 })
        + (if open_toward(g, p, 2) { 1int } else { 0 }) + (if open_toward(g, p, 3) { 1int } else { 0 })
}

/// `p` is an interior traversable cell that is a dead end or a junction
/// (its traversable neighbours are not exactly two), other than the centre
/// and the exit.
pub open spec fn is_junction(g: Grid, exit: Pos, p: Pos) -> bool {
    &&& g.interior(p)
    &&& g.at(p) != CellType::Wall
    &&& open_neighbors(g, p) != 2
    &&& p != g.center()
    &&& p != exit
}

/// `p` is one of the nodes from id 2 on.
pub open spec fn listed(nodes: Seq<Pos>, p: Pos) -> bool {
    exists|i: int| 2 <= i < nodes.len() && #[trigger] nodes[i] == p
}

/// `nodes` is the node list of `g` with exit `exit`: the centre is node 0,
/// the exit node 1, and the dead ends and junctions follow in row-major
/// order, each once.
pub open spec fn node_list(g: Grid, exit: Pos, nodes: Seq<Pos>) -> bool {
    &&& nodes.len() >= 2
    &&& nodes[0] == g.center()
    &&& nodes[1] == exit
    &&& forall|i: int| 2 <= i < nodes.len() ==> is_junction(g, exit, #[trigger] nodes[i])
    &&& forall|p: Pos| is_junction(g, exit, p) ==> #[trigger] listed(nodes, p)
    &&& forall|i: int, j: int|
        2 <= i < j < nodes.len() ==> row_major_lt(#[trigger] nodes[i], #[trigger] nodes[j])
}

/// The node list as far as the scan has come: every listed junction lies
/// before `cursor`, and every junction before `cursor` is listed.
spec fn nodes_before(g: Grid, exit: Pos, nodes: Seq<Pos>, cursor: Pos) -> bool {
    &&& nodes.len() >= 2
    &&& nodes[0] == g.center()
    &&& nodes[1] == exit
    &&& forall|i: int|
        2 <= i < nodes.len() ==> is_junction(g, exit, #[trigger] nodes[i]) && row_major_lt(
            nodes[i],
            cursor,
        )
    &&& forall|p: Pos|
        is_junction(g, exit, p) && row_major_lt(p, cursor) ==> #[trigger] listed(nodes, p)
    &&& forall|i: int, j: int|
        2 <= i < j < nodes.len() ==> row_major_lt(#[trigger] nodes[i], #[trigger] nodes[j])
    &&& nodes.no_duplicates()
}

/// `ids` holds, for every cell, its node id plus one, or 0 for a cell that
/// is no node.
pub open spec fn ids_match(g: Grid, nodes: Seq<Pos>, ids: CellMap) -> bool {
    &&& ids.wf()
    &&& ids.width() == g.width
    &&& ids.height() == g.height
    &&& forall|p: Pos|
        g.contains(p) ==> (if #[trigger] ids.at(p) == 0 {
            !nodes.contains(p)
        } else {
            ids.at(p) - 1 < nodes.len() && nodes[ids.at(p) - 1] == p
        })
}

/// Listing one more junction at the cursor.
proof fn lemma_list_junction(g: Grid, exit: Pos, nodes: Seq<Pos>, here: Pos, next: Pos)
    requires
        nodes_before(g, exit, nodes, here),
        is_junction(g, exit, here),
        row_major_lt(here, next),
        forall|p: Pos| row_major_lt(p, next) ==> row_major_lt(p, here) || p == here,
    ensures
        nodes_before(g, exit, nodes.push(here), next),
        !nodes.contains(here),
{
    let more = nodes.push(here);
    assert forall|p: Pos| is_junction(g, exit, p) && row_major_lt(p, next) implies #[trigger] listed(
        more,
        p,
    ) by {
        if p == here {
            assert(more[more.len() - 1] == p);
        } else {
            assert(listed(nodes, p));
            let i = choose|i: int| 2 <= i < nodes.len() && #[trigger] nodes[i] == p;
            assert(more[i] == p);
        }
    }
    assert forall|i: int, j: int| 0 <= i < more.len() && 0 <= j < more.len() && i != j implies more[i]
        != more[j] by {
        if i < nodes.len() && j < nodes.len() {
            assert(nodes[i] != nodes[j]);
        } else if i < nodes.len() {
            if i >= 2 {
                assert(row_major_lt(nodes[i], here));
            }
        } else {
            if j >= 2 {
                assert(row_major_lt(nodes[j], here));
            }
        }
    }
    if nodes.contains(here) {
        let i = choose|i: int| 0 <= i < nodes.len() && nodes[i] == here;
        if i >= 2 {
            assert(row_major_lt(nodes[i], here));
        }
    }
}

/// Moving the cursor past a cell that is no junction.
proof fn lemma_skip_cell(g: Grid, exit: Pos, nodes: Seq<Pos>, here: Pos, next: Pos)
    requires
        nodes_before(g, exit, nodes, here),
        !is_junction(g, exit, here),
        row_major_lt(here, next),
        forall|p: Pos| row_major_lt(p, next) ==> row_major_lt(p, here) || p == here,
    ensures
        nodes_before(g, exit, nodes, next),
{
}

/// The step from `p` in direction `k` stays inside the rectangle.
pub open spec fn step_inside(g: Grid, p: Pos, k: int) -> bool {
    0 <= p.x + dir_dx(k) < g.width && 0 <= p.y + dir_dy(k) < g.height
}

/// A walk at `cur` that has been through `trail` may go on in direction
/// `k`: the neighbour is inside, not a wall, and not yet on the trail.
pub open spec fn onward_ok(g: Grid, trail: Seq<Pos>, cur: Pos, k: int) -> bool {
    step_inside(g, cur, k) && g.at(cur.neighbor(k)) != CellType::Wall && !trail.contains(
        cur.neighbor(k),
    )
}

/// Where the walk goes next: the first of right, left, down, up that it
/// may take, if any.
#[verifier::opaque]
pub open spec fn onward(g: Grid, trail: Seq<Pos>, cur: Pos) -> Option<Pos> {
    if onward_ok(g, trail, cur, 0) {
        Some(cur.neighbor(0))
    } else if onward_ok(g, trail, cur, 1) {
        Some(cur.neighbor(1))
    } else if onward_ok(g, trail, cur, 2) {
        Some(cur.neighbor(2))
    } else if onward_ok(g, trail, cur, 3) {
        Some(cur.neighbor(3))
    } else {
        None
    }
}

/// `c` is a corridor walk that leaves `c[0]` in direction `k`: its first
/// step enters a traversable cell, and from every later cell but the last,
/// none of them a node, it goes on to the first neighbour it has not been
/// through.
pub open spec fn corridor_prefix(g: Grid, nodes: Seq<Pos>, k: int, c: Seq<Pos>) -> bool {
    &&& c.len() >= 2
    &&& 0 <= k < 4
    &&& g.contains(c[0])
    &&& step_inside(g, c[0], k)
    &&& c[1] == c[0].neighbor(k)
    &&& g.at(c[1]) != CellType::Wall
    &&& forall|i: int|
        1 <= i < c.len() - 1 ==> !nodes.contains(#[trigger] c[i]) && onward(g, c.take(i + 1), c[i])
            == Some(c[i + 1])
}

/// The summed weight of every cell of `c` after the first.
pub open spec fn corridor_weight(g: Grid, c: Seq<Pos>) -> int
    decreases c.len(),
{
    if c.len() <= 1 {
        0
    } else {
        corridor_weight(g, c.drop_last()) + g.at(c.last()).spec_weight()
    }
}

/// The corridor `c` leaves node `a` in direction `k` and ends at the first
/// node it meets, `b`, the higher of the two ids.
pub open spec fn joins_along(g: Grid, nodes: Seq<Pos>, k: int, c: Seq<Pos>, a: int, b: int) -> bool {
    &&& corridor_prefix(g, nodes, k, c)
    &&& 0 <= a < b < nodes.len()
    &&& nodes[a] == c[0]
    &&& nodes[b] == c.last()
}

/// Some corridor leaves node `a` in direction `k` and ends at node `b`.
pub open spec fn joined_toward(g: Grid, nodes: Seq<Pos>, k: int, a: int, b: int) -> bool {
    exists|c: Seq<Pos>| #[trigger] joins_along(g, nodes, k, c, a, b)
}

/// `e` stands for the corridor `c`, which leaves node `e.start_id` in
/// direction `k` and ends at node `e.end_id`: its weight is the
/// corridor's.
pub open spec fn runs_along(g: Grid, nodes: Seq<Pos>, k: int, c: Seq<Pos>, e: Edge) -> bool {
    joins_along(g, nodes, k, c, e.start_id as int, e.end_id as int) && e.weight == corridor_weight(
        g,
        c,
    )
}

/// `e` stands for the corridor that leaves its lower node in direction `k`.
pub open spec fn is_edge_toward(g: Grid, nodes: Seq<Pos>, k: int, e: Edge) -> bool {
    exists|c: Seq<Pos>| #[trigger] runs_along(g, nodes, k, c, e)
}

/// `e` stands for the corridor that leaves its lower node in direction
/// `k`, and no corridor that leaves that node in an earlier direction ends
/// at the same node.
pub open spec fn is_first_toward(g: Grid, nodes: Seq<Pos>, k: int, e: Edge) -> bool {
    &&& is_edge_toward(g, nodes, k, e)
    &&& forall|j: int|
        0 <= j < k ==> !#[trigger] joined_toward(g, nodes, j, e.start_id as int, e.end_id as int)
}

/// `e` stands for the first corridor between its two nodes, and that
/// corridor leaves the lower node in one of the first `n` directions.
pub open spec fn is_first_within(g: Grid, nodes: Seq<Pos>, n: int, e: Edge) -> bool {
    exists|k: int| 0 <= k < n && #[trigger] is_first_toward(g, nodes, k, e)
}

/// `e` is an edge of the graph: it stands for the first corridor, in
/// direction order from the lower node, between its two nodes.
pub open spec fn is_graph_edge(g: Grid, nodes: Seq<Pos>, e: Edge) -> bool {
    is_first_within(g, nodes, 4, e)
}

/// The edge set of the graph with node list `nodes`.
pub open spec fn graph_edges(g: Grid, nodes: Seq<Pos>) -> Set<Edge> {
    Set::new(|e: Edge| is_graph_edge(g, nodes, e))
}

/// A corridor walk goes on by the cell that `onward` names.
proof fn lemma_prefix_extend(g: Grid, nodes: Seq<Pos>, k: int, c: Seq<Pos>, n: Pos)
    requires
        corridor_prefix(g, nodes, k, c),
        !nodes.contains(c.last()),
        onward(g, c, c.last()) == Some(n),
    ensures
        corridor_prefix(g, nodes, k, c.push(n)),
        corridor_weight(g, c.push(n)) == corridor_weight(g, c) + g.at(n).spec_weight(),
{
    let d = c.push(n);
    assert(d.drop_last() =~= c);
    assert forall|i: int| 1 <= i < d.len() - 1 implies !nodes.contains(#[trigger] d[i]) && onward(
        g,
        d.take(i + 1),
        d[i],
    ) == Some(d[i + 1]) by {
        if i < c.len() - 1 {
            assert(d.take(i + 1) =~= c.take(i + 1));
            assert(d[i] == c[i]);
        } else {
            assert(d.take(i + 1) =~= c);
        }
    }
}

/// Two corridor walks that leave the same cell in the same direction agree
/// as far as both go.
proof fn lemma_prefixes_agree(g: Grid, nodes: Seq<Pos>, k: int, c1: Seq<Pos>, c2: Seq<Pos>, n: int)
    requires
        corridor_prefix(g, nodes, k, c1),
        corridor_prefix(g, nodes, k, c2),
        c1[0] == c2[0],
        0 <= n <= c1.len(),
        n <= c2.len(),
    ensures
        c1.take(n) == c2.take(n),
    decreases n,
{
    if n <= 2 {
        assert(c1.take(n) =~= c2.take(n));
    } else {
        lemma_prefixes_agree(g, nodes, k, c1, c2, n - 1);
        let i = n - 2;
        assert(c1.take(n - 1)[i] == c2.take(n - 1)[i]);
        assert(c1[i] == c2[i]);
        assert(onward(g, c1.take(i + 1), c1[i]) == Some(c1[i + 1]));
        assert(onward(g, c2.take(i + 1), c2[i]) == Some(c2[i + 1]));
        assert forall|j: int| 0 <= j < n implies c1.take(n)[j] == c2.take(n)[j] by {
            if j < n - 1 {
                assert(c1.take(n - 1)[j] == c2.take(n - 1)[j]);
            }
        }
        assert(c1.take(n) =~= c2.take(n));
    }
}

/// A corridor walk that has come to a dead end at a cell that is no node
/// cannot be part of a corridor that ends at a node.
proof fn lemma_dead_end(g: Grid, nodes: Seq<Pos>, k: int, t: Seq<Pos>, c: Seq<Pos>)
    requires
        corridor_prefix(g, nodes, k, t),
        !nodes.contains(t.last()),
        onward(g, t, t.last()) is None,
        corridor_prefix(g, nodes, k, c),
        c[0] == t[0],
    ensures
        !nodes.contains(c.last()),
{
    if c.len() <= t.len() {
        lemma_prefixes_agree(g, nodes, k, c, t, c.len() as int);
        let i = c.len() - 1;
        assert(c.take(c.len() as int)[i] == t.take(c.len() as int)[i]);
        assert(c.last() == t[i]);
        if i < t.len() - 1 {
            assert(!nodes.contains(t[i]));
        }
    } else {
        lemma_prefixes_agree(g, nodes, k, c, t, t.len() as int);
        let i = t.len() - 1;
        assert(c.take(t.len() as int) =~= t);
        assert(c.take(i + 1)[i] == t[i]);
        assert(!nodes.contains(c[i]) && onward(g, c.take(i + 1), c[i]) == Some(c[i + 1]));
    }
}

/// From one node in one direction, at most one corridor ends at a node.
proof fn lemma_corridor_unique(g: Grid, nodes: Seq<Pos>, k: int, c1: Seq<Pos>, c2: Seq<Pos>)
    requires
        corridor_prefix(g, nodes, k, c1),
        corridor_prefix(g, nodes, k, c2),
        c1[0] == c2[0],
        nodes.contains(c1.last()),
        nodes.contains(c2.last()),
    ensures
        c1 == c2,
{
    if c1.len() < c2.len() {
        lemma_prefixes_agree(g, nodes, k, c1, c2, c1.len() as int);
        let i = c1.len() - 1;
        assert(c1.take(c1.len() as int)[i] == c2.take(c1.len() as int)[i]);
        assert(!nodes.contains(c2[i]));
    } else if c2.len() < c1.len() {
        lemma_prefixes_agree(g, nodes, k, c1, c2, c2.len() as int);
        let i = c2.len() - 1;
        assert(c1.take(c2.len() as int)[i] == c2.take(c2.len() as int)[i]);
        assert(!nodes.contains(c1[i]));
    } else {
        lemma_prefixes_agree(g, nodes, k, c1, c2, c1.len() as int);
        assert(c1.take(c1.len() as int) =~= c1);
        assert(c2.take(c2.len() as int) =~= c2);
    }
}

/// Moving the cursor from the end of one interior row to the next row.
proof fn lemma_next_row(g: Grid, exit: Pos, nodes: Seq<Pos>, end: Pos, start: Pos)
    requires
        nodes_before(g, exit, nodes, end),
        end.x == g.width - 1,
        start.x == 0,
        start.y == end.y + 1,
    ensures
        nodes_before(g, exit, nodes, start),
{
    assert forall|p: Pos| is_junction(g, exit, p) && row_major_lt(p, start) implies #[trigger] listed(
        nodes,
        p,
    ) by {
        assert(row_major_lt(p, end));
    }
}

/// `nodes` and `edges` are the graph of `g`: empty when the builder finds
/// no exit, else the node list for that exit and the corridors between its
/// nodes.
pub open spec fn is_graph(g: Grid, nodes: Seq<Pos>, edges: Set<Edge>) -> bool {
    ||| (graph_exit(g, None) && nodes.len() == 0 && edges == Set::<Edge>::empty())
    ||| exists|exit: Pos| #[trigger]
        graph_exit(g, Some(exit)) && node_list(g, exit, nodes) && edges == graph_edges(g, nodes)
}

/// Two node lists of one grid and exit are the same list.
proof fn lemma_nodes_agree(g: Grid, exit: Pos, n1: Seq<Pos>, n2: Seq<Pos>, i: int)
    requires
        node_list(g, exit, n1),
        node_list(g, exit, n2),
        0 <= i < n1.len(),
        i < n2.len(),
    ensures
        n1[i] == n2[i],
    decreases i,
{
    if i >= 2 {
        assert(listed(n2, n1[i]));
        let j2 = choose|j: int| 2 <= j < n2.len() && #[trigger] n2[j] == n1[i];
        assert(listed(n1, n2[i]));
        let j1 = choose|j: int| 2 <= j < n1.len() && #[trigger] n1[j] == n2[i];
        if j2 < i {
            lemma_nodes_agree(g, exit, n1, n2, j2);
            assert(row_major_lt(n1[j2], n1[i]));
        } else if j1 < i {
            lemma_nodes_agree(g, exit, n1, n2, j1);
            assert(row_major_lt(n2[j1], n2[i]));
        } else if j2 > i && j1 > i {
            assert(row_major_lt(n2[i], n2[j2]));
            assert(row_major_lt(n1[i], n1[j1]));
        }
    }
}

/// The graph is a function of the grid: whatever two runs of the builder
/// report for one grid is the same node list and the same edge set.
pub proof fn lemma_graph_unique(
    g: Grid,
    n1: Seq<Pos>,
    e1: Set<Edge>,
    n2: Seq<Pos>,
    e2: Set<Edge>,
)
    requires
        g.wf(),
        is_graph(g, n1, e1),
        is_graph(g, n2, e2),
    ensures
        n1 == n2,
        e1 == e2,
{
    let right = (g.width - 1) as usize;
    if graph_exit(g, None) {
        if exists|exit: Pos| #[trigger]
            graph_exit(g, Some(exit)) && node_list(g, exit, n1) && e1 == graph_edges(g, n1) {
            let x = choose|exit: Pos| #[trigger]
                graph_exit(g, Some(exit)) && node_list(g, exit, n1) && e1 == graph_edges(g, n1);
            assert(g.at(Pos { x: x.x, y: x.y }) == CellType::Exit);
            assert(has_exit_in_column(g, x.x));
        }
        if exists|exit: Pos| #[trigger]
            graph_exit(g, Some(exit)) && node_list(g, exit, n2) && e2 == graph_edges(g, n2) {
            let x = choose|exit: Pos| #[trigger]
                graph_exit(g, Some(exit)) && node_list(g, exit, n2) && e2 == graph_edges(g, n2);
            assert(g.at(Pos { x: x.x, y: x.y }) == CellType::Exit);
            assert(has_exit_in_column(g, x.x));
        }
        assert(n1 =~= n2);
    } else {
        let x1 = choose|exit: Pos| #[trigger]
            graph_exit(g, Some(exit)) && node_list(g, exit, n1) && e1 == graph_edges(g, n1);
        let x2 = choose|exit: Pos| #[trigger]
            graph_exit(g, Some(exit)) && node_list(g, exit, n2) && e2 == graph_edges(g, n2);
        assert(g.at(Pos { x: x1.x, y: x1.y }) == CellType::Exit);
        assert(g.at(Pos { x: x2.x, y: x2.y }) == CellType::Exit);
        assert(has_exit_in_column(g, x1.x));
        assert(has_exit_in_column(g, x2.x));
        assert(x1.x == x2.x);
        assert(x1.y == x2.y) by {
            if x1.y < x2.y {
                assert(g.at(Pos { x: x2.x, y: x1.y }) != CellType::Exit);
            }
            if x2.y < x1.y {
                assert(g.at(Pos { x: x1.x, y: x2.y }) != CellType::Exit);
            }
        }
        assert(x1 == x2);
        if n1.len() < n2.len() {
            let q = n2[n1.len() as int];
            assert(listed(n1, q));
            let j = choose|j: int| 2 <= j < n1.len() && #[trigger] n1[j] == q;
            lemma_nodes_agree(g, x1, n1, n2, j);
            assert(row_major_lt(n2[j], n2[n1.len() as int]));
        }
        if n2.len() < n1.len() {
            let q = n1[n2.len() as int];
            assert(listed(n2, q));
            let j = choose|j: int| 2 <= j < n2.len() && #[trigger] n2[j] == q;
            lemma_nodes_agree(g, x1, n1, n2, j);
            assert(row_major_lt(n1[j], n1[n2.len() as int]));
        }
        assert forall|i: int| 0 <= i < n1.len() implies n1[i] == n2[i] by {
            lemma_nodes_agree(g, x1, n1, n2, i);
        }
        assert(n1 =~= n2);
    }
}

/// Whether `p` is on `trail`.
fn on_trail(trail: &Vec<Pos>, p: Pos) -> (b: bool)
    ensures
        b == trail@.contains(p),
{
    let mut i: usize = 0;
    while i < trail.len()
        invariant
            i <= trail.len(),
            forall|j: int| 0 <= j < i ==> trail@[j] != p,
        decreases trail.len() - i,
    {
        let q = trail[i];
        if q.x == p.x && q.y == p.y {
            return true;
        }
        i += 1;
    }
    false
}

/// Whether an edge to node `end` is among `items` from index `base` on.
fn held_toward(items: &Vec<Edge>, base: usize, end: usize) -> (b: bool)
    requires
        base <= items.len(),
    ensures
        b == exists|i: int| base <= i < items@.len() && (#[trigger] items@[i]).end_id == end,
{
    let mut i: usize = base;
    while i < items.len()
        invariant
            base <= i <= items.len(),
            forall|j: int| base <= j < i ==> (#[trigger] items@[j]).end_id != end,
        decreases items.len() - i,
    {
        if items[i].end_id == end {
            return true;
        }
        i += 1;
    }
    false
}

/// From one node in one direction, the corridor ends at one node at most.
proof fn lemma_one_end(g: Grid, nodes: Seq<Pos>, k: int, a: int, b: int, d: Seq<Pos>, end: int)
    requires
        nodes.no_duplicates(),
        joined_toward(g, nodes, k, a, b),
        corridor_prefix(g, nodes, k, d),
        d[0] == nodes[a],
        0 <= end < nodes.len(),
        d.last() == nodes[end],
    ensures
        b == end,
        forall|c: Seq<Pos>| #[trigger] joins_along(g, nodes, k, c, a, b) ==> c == d,
{
    assert forall|c: Seq<Pos>| #[trigger] joins_along(g, nodes, k, c, a, b) implies c == d by {
        assert(nodes.contains(c.last()));
        assert(nodes.contains(d.last()));
        lemma_corridor_unique(g, nodes, k, c, d);
    }
    let c = choose|c: Seq<Pos>| #[trigger] joins_along(g, nodes, k, c, a, b);
    assert(c == d);
}

/// Between two nodes the graph has one edge at most.
pub proof fn lemma_one_edge_per_pair(g: Grid, nodes: Seq<Pos>, e: Edge, f: Edge)
    requires
        nodes.no_duplicates(),
        is_graph_edge(g, nodes, e),
        is_graph_edge(g, nodes, f),
        e.start_id == f.start_id,
        e.end_id == f.end_id,
    ensures
        e == f,
{
    let k = choose|k: int| 0 <= k < 4 && #[trigger] is_first_toward(g, nodes, k, e);
    let j = choose|j: int| 0 <= j < 4 && #[trigger] is_first_toward(g, nodes, j, f);
    let c = choose|c: Seq<Pos>| #[trigger] runs_along(g, nodes, k, c, e);
    let d = choose|d: Seq<Pos>| #[trigger] runs_along(g, nodes, j, d, f);
    assert(joins_along(g, nodes, k, c, e.start_id as int, e.end_id as int));
    assert(joins_along(g, nodes, j, d, f.start_id as int, f.end_id as int));
    assert(joined_toward(g, nodes, k, e.start_id as int, e.end_id as int));
    assert(joined_toward(g, nodes, j, f.start_id as int, f.end_id as int));
    assert(k == j);
    assert(nodes.contains(c.last()));
    assert(nodes.contains(d.last()));
    lemma_corridor_unique(g, nodes, k, c, d);
}

impl Maze {
    /// The topmost `Exit` cell of column `x`.
    fn first_exit_in(&self, x: usize) -> (e: Option<Pos>)
        requires
            self.wf(),
            x < self@.width,
        ensures
            match e {
                Some(p) => p.x == x && first_exit_in_column(self@, p),
                None => !has_exit_in_column(self@, x),
            },
    {
        let (_, height) = self.get_size();
        let mut y: usize = 0;
        while y < height
            invariant
                self.wf(),
                x < self@.width,
                height == self@.height,
                y <= height,
                forall|r: usize| r < y ==> #[trigger] self@.at(Pos { x, y: r }) != CellType::Exit,
            decreases height - y,
        {
            if self.get(x, y) == CellType::Exit {
                return Some(Pos { x, y });
            }
            y += 1;
        }
        None
    }

    /// The exit of the graph: the topmost `Exit` cell of the right border
    /// column, else that of the left one. An exit on the top or bottom
    /// border is not found.
    pub fn find_exit(&self) -> (e: Option<Pos>)
        requires
            self.wf(),
        ensures
            graph_exit(self@, e),
    {
        let (width, _) = self.get_size();
        match self.first_exit_in(width - 1) {
            Some(p) => Some(p),
            None => self.first_exit_in(0),
        }
    }

    /// Whether the interior cell at column `x`, row `y` becomes a node.
    pub fn is_junction(&self, exit: Pos, x: usize, y: usize) -> (b: bool)
        requires
            self.wf(),
            self@.interior(Pos { x, y }),
        ensures
            b == is_junction(self@, exit, Pos { x, y }),
    {
        let ghost p = Pos { x, y };
        assert(p.neighbor(0) == Pos { x: (x + 1) as usize, y });
        assert(p.neighbor(1) == Pos { x: (x - 1) as usize, y });
        assert(p.neighbor(2) == Pos { x, y: (y + 1) as usize });
        assert(p.neighbor(3) == Pos { x, y: (y - 1) as usize });
        if !self.get(x, y).is_traversable() {
            return false;
        }
        let mut neighbors: u8 = 0;
        if self.get(x + 1, y).is_traversable() {
            neighbors += 1;
        }
        if self.get(x - 1, y).is_traversable() {
            neighbors += 1;
        }
        if self.get(x, y + 1).is_traversable() {
            neighbors += 1;
        }
        if self.get(x, y - 1).is_traversable() {
            neighbors += 1;
        }
        let center = self.center();
        neighbors != 2 && !(x == center.x && y == center.y) && !(x == exit.x && y == exit.y)
    }

    /// Node discovery: the centre, the exit, then every dead end and
    /// junction of the interior, row by row; and beside the list, the id of
    /// each cell.
    fn find_nodes(&self, exit: Pos) -> (r: (Nodes, CellMap))
        requires
            self.wf(),
            self@.contains(exit),
            !self@.interior(exit),
        ensures
            node_list(self@, exit, r.0@),
            r.0.wf(),
            ids_match(self@, r.0@, r.1),
    {
        let (width, height) = self.get_size();
        let center = self.center();
        proof {
            self.lemma_addressable();
            crate::generate::lemma_exit_meets_lattice(self@, 0);
        }
        let mut nodes = Nodes::new();
        let mut ids = CellMap::new(width, height, 0);
        nodes.push(center);
        ids.set(center, 1);
        nodes.push(exit);
        ids.set(exit, 2);
        proof {
            assert(nodes@[0] == center && nodes@[1] == exit);
            assert forall|p: Pos| self@.contains(p) && #[trigger] ids.at(p) == 0 implies !nodes@.contains(
                p,
            ) by {
                if nodes@.contains(p) {
                    let i = choose|i: int| 0 <= i < nodes@.len() && nodes@[i] == p;
                }
            }
        }
        let mut y: usize = 1;
        while y < height - 1
            invariant
                self.wf(),
                width == self@.width,
                height == self@.height,
                center == self@.center(),
                1 <= y <= height - 1,
                nodes_before(self@, exit, nodes@, Pos { x: 0, y }),
                ids_match(self@, nodes@, ids),
            decreases height - y,
        {
            let mut x: usize = 1;
            proof {
                if is_junction(self@, exit, Pos { x: 0, y }) {
                } else {
                    assert(nodes_before(self@, exit, nodes@, Pos { x: 1, y })) by {
                        assert forall|p: Pos| row_major_lt(p, Pos { x: 1, y }) implies row_major_lt(
                            p,
                            Pos { x: 0, y },
                        ) || p == (Pos { x: 0, y }) by {}
                        lemma_skip_cell(self@, exit, nodes@, Pos { x: 0, y }, Pos { x: 1, y });
                    }
                }
            }
            while x < width - 1
                invariant
                    self.wf(),
                    width == self@.width,
                    height == self@.height,
                    center == self@.center(),
                    1 <= y < height - 1,
                    1 <= x <= width - 1,
                    nodes_before(self@, exit, nodes@, Pos { x, y }),
                    ids_match(self@, nodes@, ids),
                decreases width - x,
            {
                let here = Pos { x, y };
                let ghost before = nodes@;
                let ghost next = Pos { x: (x + 1) as usize, y };
                if self.is_junction(exit, x, y) {
                    proof {
                        lemma_list_junction(self@, exit, before, here, next);
                    }
                    nodes.push(here);
                    ids.set(here, nodes.len());
                    proof {
                        let now = nodes@;
                        assert forall|p: Pos| self@.contains(p) implies (if #[trigger] ids.at(p) == 0 {
                            !now.contains(p)
                        } else {
                            ids.at(p) - 1 < now.len() && now[ids.at(p) - 1] == p
                        }) by {
                            if p != here {
                                if ids.at(p) == 0 {
                                    if now.contains(p) {
                                        let i = choose|i: int| 0 <= i < now.len() && now[i] == p;
                                        assert(before[i] == p);
                                    }
                                } else {
                                    assert(now[ids.at(p) - 1] == before[ids.at(p) - 1]);
                                }
                            }
                        }
                    }
                } else {
                    proof {
                        lemma_skip_cell(self@, exit, before, here, next);
                    }
                }
                x += 1;
            }
            proof {
                let end = Pos { x, y };
                let start = Pos { x: 0, y: (y + 1) as usize };
                lemma_next_row(self@, exit, nodes@, end, start);
            }
            y += 1;
        }
        (nodes, ids)
    }

    /// The neighbour of `p` in direction `k`, if it lies inside the grid.
    pub fn step_toward(&self, p: Pos, k: usize) -> (r: Option<Pos>)
        requires
            self.wf(),
            self@.contains(p),
            k < 4,
        ensures
            r is Some <==> step_inside(self@, p, k as int),
            r is Some ==> r->Some_0 == p.neighbor(k as int),
    {
        let (width, height) = self.get_size();
        if k == 0 {
            if p.x + 1 < width {
                Some(Pos { x: p.x + 1, y: p.y })
            } else {
                None
            }
        } else if k == 1 {
            if p.x > 0 {
                Some(Pos { x: p.x - 1, y: p.y })
            } else {
                None
            }
        } else if k == 2 {
            if p.y + 1 < height {
                Some(Pos { x: p.x, y: p.y + 1 })
            } else {
                None
            }
        } else {
            if p.y > 0 {
                Some(Pos { x: p.x, y: p.y - 1 })
            } else {
                None
            }
        }
    }

    /// Where a corridor walk at `cur` goes next, having been through
    /// `trail`.
    fn onward(&self, trail: &Vec<Pos>, cur: Pos) -> (r: Option<Pos>)
        requires
            self.wf(),
            self@.contains(cur),
        ensures
            r == onward(self@, trail@, cur),
            r is Some ==> self@.contains(r->Some_0) && !trail@.contains(r->Some_0),
    {
        let mut k: usize = 0;
        while k < 4
            invariant
                self.wf(),
                self@.contains(cur),
                k <= 4,
                forall|j: int| 0 <= j < k ==> !onward_ok(self@, trail@, cur, j),
            decreases 4 - k,
        {
            match self.step_toward(cur, k) {
                Some(n) => {
                    if self.get(n.x, n.y).is_traversable() && !on_trail(trail, n) {
                        proof {
                            reveal(onward);
                        }
                        return Some(n);
                    }
                },
                None => {},
            }
            k += 1;
        }
        proof {
            reveal(onward);
        }
        None
    }

    /// Follows the corridor that leaves the node at `start` in direction
    /// `k`, and reports the node it ends at and its summed weight, or
    /// `None` when the first step meets the border or a wall, or the walk
    /// comes to a dead end.
    fn follow_corridor(&self, nodes: &Nodes, ids: &CellMap, start: Pos, k: usize) -> (r: Option<
        (usize, i32),
    >)
        requires
            self.wf(),
            9 * self@.width * self@.height <= i32::MAX,
            ids_match(self@, nodes@, *ids),
            self@.contains(start),
            k < 4,
        ensures
            match r {
                Some((end, weight)) => end < nodes@.len() && exists|c: Seq<Pos>|
                    corridor_prefix(self@, nodes@, k as int, c) && c[0] == start && c.last()
                        == nodes@[end as int] && weight == #[trigger] corridor_weight(self@, c),
                None => forall|c: Seq<Pos>|
                    #[trigger] corridor_prefix(self@, nodes@, k as int, c) && c[0] == start
                        ==> !nodes@.contains(c.last()),
            },
    {
        let (width, height) = self.get_size();
        let first = match self.step_toward(start, k) {
            Some(first) => first,
            None => {
                return None;
            },
        };
        let cell = self.get(first.x, first.y);
        if !cell.is_traversable() {
            return None;
        }
        let mut weight: i32 = cell.weight();
        let mut trail: Vec<Pos> = Vec::new();
        trail.push(start);
        trail.push(first);
        let mut cur = first;
        proof {
            cell.weight_by_class();
            assert(trail@.drop_last() =~= seq![start]);
            assert(corridor_weight(self@, trail@.drop_last()) == 0);
            assert(9 * 2 <= 9 * self@.width * self@.height && 2 <= self@.width * self@.height)
                by (nonlinear_arith)
                requires
                    self@.width >= 7,
                    self@.height >= 7,
            ;
        }
        loop
            invariant
                self.wf(),
                9 * self@.width * self@.height <= i32::MAX,
                ids_match(self@, nodes@, *ids),
                k < 4,
                width == self@.width,
                height == self@.height,
                corridor_prefix(self@, nodes@, k as int, trail@),
                trail@[0] == start,
                cur == trail@.last(),
                trail@.no_duplicates(),
                forall|i: int| 0 <= i < trail@.len() ==> self@.contains(#[trigger] trail@[i]),
                weight == corridor_weight(self@, trail@),
                -9 * (trail@.len() - 1) <= weight <= 9 * (trail@.len() - 1),
                trail@.len() <= width * height,
            decreases width * height - trail@.len(),
        {
            let id = ids.get(cur);
            if id != 0 {
                return Some((id - 1, weight));
            }
            match self.onward(&trail, cur) {
                None => {
                    proof {
                        assert forall|c: Seq<Pos>|
                            #[trigger] corridor_prefix(self@, nodes@, k as int, c) && c[0]
                                == start implies !nodes@.contains(c.last()) by {
                            lemma_dead_end(self@, nodes@, k as int, trail@, c);
                        }
                    }
                    return None;
                },
                Some(next) => {
                    let step = self.get(next.x, next.y);
                    proof {
                        step.weight_by_class();
                        lemma_prefix_extend(self@, nodes@, k as int, trail@, next);
                        let longer = trail@.push(next);
                        assert(longer.no_duplicates());
                        assert forall|i: int| 0 <= i < longer.len() implies (#[trigger] longer[i]).x
                            < self@.width && longer[i].y < self@.height by {
                            if i < trail@.len() {
                                assert(self@.contains(trail@[i]));
                            }
                        }
                        lemma_distinct_cells_bounded(longer, self@.width, self@.height);
                        assert(9 * longer.len() <= 9 * self@.width * self@.height)
                            by (nonlinear_arith)
                            requires
                                longer.len() <= self@.width * self@.height,
                        ;
                    }
                    weight = weight + step.weight();
                    trail.push(next);
                    cur = next;
                },
            }
        }
    }

    /// Edge discovery: from every node in every direction, the corridor to
    /// the next node, recorded from its lower end, and only the first one
    /// between two nodes.
    fn find_edges(&self, nodes: &Nodes, ids: &CellMap) -> (edges: Edges)
        requires
            self.wf(),
            9 * self@.width * self@.height <= i32::MAX,
            ids_match(self@, nodes@, *ids),
            nodes.wf(),
            forall|i: int| 0 <= i < nodes@.len() ==> self@.contains(#[trigger] nodes@[i]),
        ensures
            edges.wf(),
            edges@ == graph_edges(self@, nodes@),
    {
        let mut items: Vec<Edge> = Vec::new();
        let mut a: usize = 0;
        while a < nodes.len()
            invariant
                self.wf(),
                9 * self@.width * self@.height <= i32::MAX,
                ids_match(self@, nodes@, *ids),
                nodes.wf(),
                forall|i: int| 0 <= i < nodes@.len() ==> self@.contains(#[trigger] nodes@[i]),
                a <= nodes@.len(),
                items@.no_duplicates(),
                forall|i: int|
                    0 <= i < items@.len() ==> (#[trigger] items@[i]).start_id < a && is_graph_edge(
                        self@,
                        nodes@,
                        items@[i],
                    ),
                forall|e: Edge|
                    #[trigger] is_graph_edge(self@, nodes@, e) && e.start_id < a
                        ==> items@.contains(e),
            decreases nodes@.len() - a,
        {
            let base = items.len();
            let start = nodes.position(a);
            let mut k: usize = 0;
            while k < 4
                invariant
                    self.wf(),
                    9 * self@.width * self@.height <= i32::MAX,
                    ids_match(self@, nodes@, *ids),
                    nodes.wf(),
                    forall|i: int| 0 <= i < nodes@.len() ==> self@.contains(#[trigger] nodes@[i]),
                    a < nodes@.len(),
                    start == nodes@[a as int],
                    k <= 4,
                    base <= items@.len(),
                    items@.no_duplicates(),
                    forall|i: int| 0 <= i < base ==> (#[trigger] items@[i]).start_id < a,
                    forall|i: int|
                        0 <= i < base ==> is_graph_edge(self@, nodes@, #[trigger] items@[i]),
                    forall|i: int|
                        base <= i < items@.len() ==> (#[trigger] items@[i]).start_id == a
                            && is_first_within(self@, nodes@, k as int, items@[i]),
                    forall|i: int, m: int|
                        base <= i < m < items@.len() ==> (#[trigger] items@[i]).end_id != (
                        #[trigger] items@[m]).end_id,
                    forall|e: Edge|
                        #[trigger] is_graph_edge(self@, nodes@, e) && e.start_id < a
                            ==> items@.contains(e),
                    forall|j: int, b: int|
                        0 <= j < k && #[trigger] joined_toward(self@, nodes@, j, a as int, b)
                            ==> exists|i: int|
                            base <= i < items@.len() && (#[trigger] items@[i]).end_id == b,
                    forall|e: Edge, j: int|
                        0 <= j < k && #[trigger] is_first_toward(self@, nodes@, j, e) && e.start_id
                            == a ==> items@.contains(e),
                decreases 4 - k,
            {
                let ghost before = items@;
                let found = self.follow_corridor(nodes, ids, start, k);
                let mut added = false;
                match found {
                    Some((end, weight)) => {
                        if a < end && !held_toward(&items, base, end) {
                            let edge = Edge { start_id: a, end_id: end, weight };
                            items.push(edge);
                            added = true;
                        }
                    },
                    None => {},
                }
                proof {
                    self.lemma_direction_done(nodes@, before, items@, base as int, a, k, found, added);
                }
                k += 1;
            }
            proof {
                assert forall|i: int| 0 <= i < items@.len() implies (#[trigger] items@[i]).start_id
                    < a + 1 && is_graph_edge(self@, nodes@, items@[i]) by {
                    if i >= base {
                        assert(is_first_within(self@, nodes@, 4, items@[i]));
                    }
                }
                assert forall|e: Edge|
                    #[trigger] is_graph_edge(self@, nodes@, e) && e.start_id < a + 1 implies items@.contains(
                    e,
                ) by {
                    if e.start_id == a {
                        let j = choose|j: int|
                            0 <= j < 4 && #[trigger] is_first_toward(self@, nodes@, j, e);
                    }
                }
            }
            a += 1;
        }
        let edges = Edges::from_distinct(items);
        proof {
            assert forall|e: Edge| edges@.contains(e) <==> graph_edges(self@, nodes@).contains(
                e,
            ) by {
                if edges@.contains(e) {
                    let i = choose|i: int| 0 <= i < items@.len() && items@[i] == e;
                }
                if is_graph_edge(self@, nodes@, e) {
                    let k = choose|k: int|
                        0 <= k < 4 && #[trigger] is_first_toward(self@, nodes@, k, e);
                    let c = choose|c: Seq<Pos>| #[trigger] runs_along(self@, nodes@, k, c, e);
                    assert(e.start_id < nodes@.len());
                }
            }
            assert(edges@ =~= graph_edges(self@, nodes@));
        }
        edges
    }

    /// What one direction adds to the edges found from node `a`.
    proof fn lemma_direction_done(
        &self,
        nodes: Seq<Pos>,
        before: Seq<Edge>,
        now: Seq<Edge>,
        base: int,
        a: usize,
        k: usize,
        found: Option<(usize, i32)>,
        added: bool,
    )
        requires
            nodes.no_duplicates(),
            a < nodes.len(),
            k < 4,
            0 <= base <= before.len(),
            before.no_duplicates(),
            forall|i: int| 0 <= i < base ==> (#[trigger] before[i]).start_id < a,
            forall|i: int|
                base <= i < before.len() ==> (#[trigger] before[i]).start_id == a
                    && is_first_within(self@, nodes, k as int, before[i]),
            forall|i: int, m: int|
                base <= i < m < before.len() ==> (#[trigger] before[i]).end_id != (
                #[trigger] before[m]).end_id,
            forall|j: int, b: int|
                0 <= j < k && #[trigger] joined_toward(self@, nodes, j, a as int, b) ==> exists|
                    i: int,
                | base <= i < before.len() && (#[trigger] before[i]).end_id == b,
            forall|e: Edge, j: int|
                0 <= j < k && #[trigger] is_first_toward(self@, nodes, j, e) && e.start_id == a
                    ==> before.contains(e),
            match found {
                Some((end, weight)) => end < nodes.len() && exists|c: Seq<Pos>|
                    corridor_prefix(self@, nodes, k as int, c) && c[0] == nodes[a as int]
                        && c.last() == nodes[end as int] && weight == #[trigger] corridor_weight(
                        self@,
                        c,
                    ),
                None => forall|c: Seq<Pos>|
                    #[trigger] corridor_prefix(self@, nodes, k as int, c) && c[0] == nodes[a as int]
                        ==> !nodes.contains(c.last()),
            },
            added <==> (found is Some && a < found->Some_0.0 && !exists|i: int|
                base <= i < before.len() && (#[trigger] before[i]).end_id == found->Some_0.0),
            now == (if added {
                before.push(Edge { start_id: a, end_id: found->Some_0.0, weight: found->Some_0.1 })
            } else {
                before
            }),
        ensures
            now.no_duplicates(),
            forall|i: int| 0 <= i < base ==> #[trigger] now[i] == before[i],
            forall|e: Edge| before.contains(e) ==> now.contains(e),
            forall|i: int|
                base <= i < now.len() ==> (#[trigger] now[i]).start_id == a && is_first_within(
                    self@,
                    nodes,
                    k + 1,
                    now[i],
                ),
            forall|i: int, m: int|
                base <= i < m < now.len() ==> (#[trigger] now[i]).end_id != (
                #[trigger] now[m]).end_id,
            forall|j: int, b: int|
                0 <= j < k + 1 && #[trigger] joined_toward(self@, nodes, j, a as int, b)
                    ==> exists|i: int| base <= i < now.len() && (#[trigger] now[i]).end_id == b,
            forall|e: Edge, j: int|
                0 <= j < k + 1 && #[trigger] is_first_toward(self@, nodes, j, e) && e.start_id == a
                    ==> now.contains(e),
    {
        let g = self@;
        assert forall|e: Edge| before.contains(e) implies now.contains(e) by {
            let i = choose|i: int| 0 <= i < before.len() && before[i] == e;
            assert(now[i] == e);
        }
        assert forall|i: int| base <= i < before.len() implies now[i] == before[i] by {}
        match found {
            None => {
                assert forall|b: int| !joined_toward(g, nodes, k as int, a as int, b) by {
                    if joined_toward(g, nodes, k as int, a as int, b) {
                        let c = choose|c: Seq<Pos>| #[trigger]
                            joins_along(g, nodes, k as int, c, a as int, b);
                        assert(nodes.contains(c.last()));
                    }
                }
                assert forall|e: Edge|
                    e.start_id == a implies !#[trigger] is_first_toward(g, nodes, k as int, e) by {
                    if is_first_toward(g, nodes, k as int, e) {
                        let c = choose|c: Seq<Pos>| #[trigger] runs_along(g, nodes, k as int, c, e);
                        assert(joins_along(g, nodes, k as int, c, a as int, e.end_id as int));
                        assert(joined_toward(g, nodes, k as int, a as int, e.end_id as int));
                    }
                }
            },
            Some((end, weight)) => {
                let d = choose|d: Seq<Pos>|
                    corridor_prefix(g, nodes, k as int, d) && d[0] == nodes[a as int] && d.last()
                        == nodes[end as int] && weight == #[trigger] corridor_weight(g, d);
                let edge = Edge { start_id: a, end_id: end, weight };
                assert forall|b: int| #[trigger]
                    joined_toward(g, nodes, k as int, a as int, b) implies b == end && a < end by {
                    lemma_one_end(g, nodes, k as int, a as int, b, d, end as int);
                }
                if a < end {
                    assert(joins_along(g, nodes, k as int, d, a as int, end as int));
                    assert(joined_toward(g, nodes, k as int, a as int, end as int));
                    assert(runs_along(g, nodes, k as int, d, edge));
                    assert(is_edge_toward(g, nodes, k as int, edge));
                }
                if added {
                    assert(now[now.len() - 1] == edge);
                    assert forall|j: int| 0 <= j < k implies !#[trigger] joined_toward(
                        g,
                        nodes,
                        j,
                        a as int,
                        end as int,
                    ) by {
                        if joined_toward(g, nodes, j, a as int, end as int) {
                            let i = choose|i: int|
                                base <= i < before.len() && (#[trigger] before[i]).end_id == end;
                        }
                    }
                    assert(is_first_toward(g, nodes, k as int, edge));
                    assert forall|x: int, y: int|
                        0 <= x < now.len() && 0 <= y < now.len() && x != y implies now[x]
                        != now[y] by {
                        if x < before.len() && y < before.len() {
                            assert(before[x] != before[y]);
                        } else {
                            let z = if x < before.len() {
                                x
                            } else {
                                y
                            };
                            assert(now[z] == before[z]);
                            if z < base {
                                assert(before[z].start_id < a);
                            } else {
                                assert(before[z].end_id != end);
                            }
                        }
                    }
                }
                assert forall|e: Edge|
                    #[trigger] is_first_toward(g, nodes, k as int, e) && e.start_id
                        == a implies now.contains(e) by {
                    let c = choose|c: Seq<Pos>| #[trigger] runs_along(g, nodes, k as int, c, e);
                    assert(joins_along(g, nodes, k as int, c, a as int, e.end_id as int));
                    assert(joined_toward(g, nodes, k as int, a as int, e.end_id as int));
                    lemma_one_end(g, nodes, k as int, a as int, e.end_id as int, d, end as int);
                    assert(c == d);
                    assert(e == edge);
                    if !added {
                        let i = choose|i: int|
                            base <= i < before.len() && (#[trigger] before[i]).end_id == end;
                        let j = choose|j: int|
                            0 <= j < k && #[trigger] is_first_toward(g, nodes, j, before[i]);
                        let c2 = choose|c2: Seq<Pos>| #[trigger]
                            runs_along(g, nodes, j, c2, before[i]);
                        assert(joins_along(g, nodes, j, c2, a as int, end as int));
                        assert(joined_toward(g, nodes, j, a as int, end as int));
                    }
                }
                assert forall|b: int| #[trigger]
                    joined_toward(g, nodes, k as int, a as int, b) implies exists|i: int|
                    base <= i < now.len() && (#[trigger] now[i]).end_id == b by {
                    if added {
                        assert(now[now.len() - 1].end_id == b);
                    } else {
                        let i = choose|i: int|
                            base <= i < before.len() && (#[trigger] before[i]).end_id == end;
                        assert(now[i].end_id == b);
                    }
                }
            },
        }
        assert forall|i: int| base <= i < now.len() implies (#[trigger] now[i]).start_id == a
            && is_first_within(g, nodes, k + 1, now[i]) by {
            if i < before.len() {
                assert(now[i] == before[i]);
                let j = choose|j: int|
                    0 <= j < k && #[trigger] is_first_toward(g, nodes, j, before[i]);
                assert(is_first_toward(g, nodes, j, now[i]));
            } else {
                assert(is_first_toward(g, nodes, k as int, now[i]));
            }
        }
        assert forall|j: int, b: int|
            0 <= j < k + 1 && #[trigger] joined_toward(g, nodes, j, a as int, b) implies exists|
            i: int,
        | base <= i < now.len() && (#[trigger] now[i]).end_id == b by {
            if j < k {
                let i = choose|i: int|
                    base <= i < before.len() && (#[trigger] before[i]).end_id == b;
                assert(now[i] == before[i]);
            }
        }
        assert forall|e: Edge, j: int|
            0 <= j < k + 1 && #[trigger] is_first_toward(g, nodes, j, e) && e.start_id
                == a implies now.contains(e) by {
            if j < k {
                assert(before.contains(e));
            }
        }
    }

    /// Whether node ids and corridor weights of this maze fit the graph's
    /// number types.
    pub fn graph_fits(&self) -> (b: bool)
        requires
            self.wf(),
        ensures
            b == (9 * self@.width * self@.height <= i32::MAX),
    {
        let (width, height) = self.get_size();
        proof {
            self.lemma_addressable();
        }
        let area = width * height;
        assert(9 * self@.width * self@.height == 9 * (self@.width * self@.height))
            by (nonlinear_arith);
        area <= 238609294
    }

    /// Derives the graph of the maze: its nodes (the centre, the exit, every
    /// dead end and junction) and the corridors between them as weighted
    /// edges. Without an `Exit` cell on the left or right border the graph
    /// is empty.
    pub fn build_graph(&self) -> (graph: (Nodes, Edges))
        requires
            self.wf(),
            9 * self@.width * self@.height <= i32::MAX,
        ensures
            is_graph(self@, graph.0@, graph.1@),
            graph.0.wf(),
            graph.1.wf(),
    {
        match self.find_exit() {
            None => (Nodes::new(), Edges::new()),
            Some(exit) => {
                let (nodes, ids) = self.find_nodes(exit);
                proof {
                    crate::generate::lemma_exit_meets_lattice(self@, 0);
                    assert forall|i: int| 0 <= i < nodes@.len() implies self@.contains(
                        #[trigger] nodes@[i],
                    ) by {
                        if i >= 2 {
                            assert(is_junction(self@, exit, nodes@[i]));
                        }
                    }
                }
                let edges = self.find_edges(&nodes, &ids);
                (nodes, edges)
            },
        }
    }
}

} // verus!
