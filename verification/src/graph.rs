//! The graph derived from a maze: numbered nodes and weighted edges.

use crate::pos::Pos;
use vstd::prelude::*;

verus! {

/// An undirected edge between two node ids, the lower one first, with the
/// summed weight of the corridor it stands for.
#[derive(Clone, Copy, Debug, PartialEq, Eq, Hash, Structural)]
pub struct Edge {
    pub start_id: usize,
    pub end_id: usize,
    pub weight: i32,
}

/// The nodes of a graph: positions numbered from 0 in the order in which
/// they were found.
pub struct Nodes {
    positions: Vec<Pos>,
}

impl View for Nodes {
    type V = Seq<Pos>;

    /// The position of every node, by id.
    closed spec fn view(&self) -> Seq<Pos> {
        self.positions@
    }
}

impl Nodes {
    /// No position is numbered twice.
    pub open spec fn wf(&self) -> bool {
        self@.no_duplicates()
    }

    pub fn new() -> (nodes: Nodes)
        ensures
            nodes@ == Seq::<Pos>::empty(),
            nodes.wf(),
    {
        Nodes { positions: Vec::new() }
    }

    pub fn len(&self) -> (n: usize)
        ensures
            n == self@.len(),
    {
        self.positions.len()
    }

    pub fn is_empty(&self) -> (b: bool)
        ensures
            b == (self@.len() == 0),
    {
        self.positions.len() == 0
    }

    /// The position of node `id`.
    pub fn position(&self, id: usize) -> (p: Pos)
        requires
            id < self@.len(),
        ensures
            p == self@[id as int],
    {
        self.positions[id]
    }

    /// The id of the node at `pos`, if there is one.
    pub fn get(&self, pos: &Pos) -> (id: Option<usize>)
        ensures
            match id {
                Some(i) => i < self@.len() && self@[i as int] == *pos,
                None => !self@.contains(*pos),
            },
    {
        let mut i: usize = 0;
        while i < self.positions.len()
            invariant
                i <= self.positions.len(),
                forall|j: int| 0 <= j < i ==> self.positions@[j] != *pos,
            decreases self.positions.len() - i,
        {
            let p = self.positions[i];
            if p.x == pos.x && p.y == pos.y {
                return Some(i);
            }
            i += 1;
        }
        None
    }

    /// Numbers `pos` as the next node.
    pub(crate) fn push(&mut self, pos: Pos)
        ensures
            final(self)@ == old(self)@.push(pos),
    {
        self.positions.push(pos);
    }
}

/// The edges of a graph: a set, kept in the order of insertion.
pub struct Edges {
    items: Vec<Edge>,
}

impl View for Edges {
    type V = Set<Edge>;

    open spec fn view(&self) -> Set<Edge> {
        self.seq().to_set()
    }
}

impl Edges {
    /// The edges in the order in which they were inserted.
    pub closed spec fn seq(&self) -> Seq<Edge> {
        self.items@
    }

    /// No edge is held twice.
    pub open spec fn wf(&self) -> bool {
        self.seq().no_duplicates()
    }

    pub fn new() -> (edges: Edges)
        ensures
            edges.seq() == Seq::<Edge>::empty(),
            edges@ == Set::<Edge>::empty(),
            edges.wf(),
    {
        let edges = Edges { items: Vec::new() };
        assert(edges@ =~= Set::<Edge>::empty());
        edges
    }

    /// The set made of the distinct edges of `items`, in their order.
    pub(crate) fn from_distinct(items: Vec<Edge>) -> (edges: Edges)
        requires
            items@.no_duplicates(),
        ensures
            edges.seq() == items@,
            edges.wf(),
    {
        Edges { items }
    }

    pub fn len(&self) -> (n: usize)
        ensures
            n == self.seq().len(),
    {
        self.items.len()
    }

    pub fn is_empty(&self) -> (b: bool)
        ensures
            b == (self.seq().len() == 0),
    {
        self.items.len() == 0
    }

    /// The `i`-th edge in insertion order.
    pub fn get(&self, i: usize) -> (e: Edge)
        requires
            i < self.seq().len(),
        ensures
            e == self.seq()[i as int],
    {
        self.items[i]
    }

    /// Whether every edge joins two of the nodes `0 .. node_count`.
    pub fn within(&self, node_count: usize) -> (b: bool)
        ensures
            b == forall|j: int|
                0 <= j < self.seq().len() ==> (#[trigger] self.seq()[j]).start_id < node_count
                    && self.seq()[j].end_id < node_count,
    {
        let mut i: usize = 0;
        while i < self.items.len()
            invariant
                i <= self.items.len(),
                forall|j: int|
                    0 <= j < i ==> (#[trigger] self.items@[j]).start_id < node_count
                        && self.items@[j].end_id < node_count,
            decreases self.items.len() - i,
        {
            let e = self.items[i];
            if e.start_id >= node_count || e.end_id >= node_count {
                assert(self.seq()[i as int] == e);
                return false;
            }
            i += 1;
        }
        true
    }

    pub fn contains(&self, edge: &Edge) -> (b: bool)
        ensures
            b == self@.contains(*edge),
    {
        let mut i: usize = 0;
        while i < self.items.len()
            invariant
                i <= self.items.len(),
                forall|j: int| 0 <= j < i ==> self.items@[j] != *edge,
            decreases self.items.len() - i,
        {
            let e = self.items[i];
            if e.start_id == edge.start_id && e.end_id == edge.end_id && e.weight == edge.weight {
                assert(self.items@[i as int] == *edge);
                return true;
            }
            i += 1;
        }
        false
    }

    /// Adds `edge` unless it is already there; tells whether it was added.
    pub fn insert(&mut self, edge: Edge) -> (added: bool)
        requires
            old(self).wf(),
        ensures
            final(self).wf(),
            added == !old(self)@.contains(edge),
            final(self)@ == old(self)@.insert(edge),
            final(self).seq() == (if added {
                old(self).seq().push(edge)
            } else {
                old(self).seq()
            }),
    {
        if self.contains(&edge) {
            assert(self@ =~= old(self)@.insert(edge));
            false
        } else {
            self.items.push(edge);
            proof {
                let before = old(self).seq();
                let now = self.seq();
                assert forall|e: Edge| now.contains(e) <==> before.contains(e) || e == edge by {
                    if before.contains(e) {
                        let i = choose|i: int| 0 <= i < before.len() && before[i] == e;
                        assert(now[i] == e);
                    }
                    if e == edge {
                        assert(now[now.len() - 1] == e);
                    }
                }
                assert(self@ =~= old(self)@.insert(edge));
            }
            true
        }
    }
}

} // verus!
