//! Route search: depth-first exploration from the centre towards the exit.

use crate::cell::CellType;
use crate::graph_build::step_inside;
use crate::grid::{Grid, Maze};
use crate::mask::CellSet;
use crate::pos::{adjacent, Pos};
use crate::reach::{is_walk, lemma_walk_extend};
use vstd::prelude::*;

verus! {

/// From the room cell `p`, direction `k` leads to a traversable cell
/// outside the room.
pub open spec fn leads_out_toward(g: Grid, p: Pos, k: int) -> bool {
    step_inside(g, p, k) && g.at(p.neighbor(k)) != CellType::Wall && !g.in_room(p.neighbor(k))
}

/// `p` is a room cell with a traversable neighbour outside the room.
pub open spec fn room_seed(g: Grid, p: Pos) -> bool {
    g.in_room(p) && exists|k: int| 0 <= k < 4 && #[trigger] leads_out_toward(g, p, k)
}

/// The search starts at the centre and at every room cell with a
/// traversable neighbour outside the room.
pub open spec fn route_start(g: Grid, p: Pos) -> bool {
    p == g.center() || room_seed(g, p)
}

/// `w` is a route: a walk from a start of the search to an `Exit` cell.
pub open spec fn is_route(g: Grid, w: Seq<Pos>) -> bool {
    is_walk(g, w) && route_start(g, w[0]) && g.at(w.last()) == CellType::Exit
}

/// One entry of the work list: a cell and the walk that led to it.
pub open spec fn entry_ok(g: Grid, visited: Set<Pos>, cell: Pos, path: Seq<Pos>) -> bool {
    &&& is_walk(g, path)
    &&& route_start(g, path[0])
    &&& path.last() == cell
    &&& visited.contains(cell)
}

/// `p` has been taken off the work list: it is no exit, and each of its
/// traversable neighbours has been visited.
pub open spec fn expanded(g: Grid, visited: Set<Pos>, p: Pos) -> bool {
    &&& g.at(p) != CellType::Exit
    &&& forall|k: int|
        0 <= k < 4 && step_inside(g, p, k) && g.at(#[trigger] p.neighbor(k)) != CellType::Wall
            ==> visited.contains(p.neighbor(k))
}

/// `p` is on the work list.
pub open spec fn waiting(work: Seq<(Pos, Vec<Pos>)>, p: Pos) -> bool {
    exists|i: int| 0 <= i < work.len() && (#[trigger] work[i]).0 == p
}

/// What the search maintains: every entry holds a walk from a start to its
/// cell, and every visited cell is on the work list, or expanded, or the
/// cell `current` that is being expanded.
pub open spec fn searching(
    g: Grid,
    visited: Set<Pos>,
    work: Seq<(Pos, Vec<Pos>)>,
    current: Option<Pos>,
) -> bool {
    &&& forall|i: int|
        0 <= i < work.len() ==> entry_ok(g, visited, (#[trigger] work[i]).0, work[i].1@)
    &&& forall|p: Pos| #[trigger]
        visited.contains(p) ==> g.contains(p) && (waiting(work, p) || expanded(g, visited, p)
            || current == Some(p))
}

/// The work list as the search sees it: each cell with the walk that led
/// to it.
pub open spec fn entries(work: Seq<(Pos, Vec<Pos>)>) -> Seq<(Pos, Seq<Pos>)> {
    Seq::new(work.len(), |i: int| (work[i].0, work[i].1@))
}

/// The visited cells and the work list after `pos` was expanded in the
/// directions from `k` on: each traversable neighbour not yet visited is
/// marked and put on top, with `path` extended by it.
pub open spec fn expand_from(
    g: Grid,
    visited: Set<Pos>,
    work: Seq<(Pos, Seq<Pos>)>,
    pos: Pos,
    path: Seq<Pos>,
    k: int,
) -> (Set<Pos>, Seq<(Pos, Seq<Pos>)>)
    decreases 4 - k,
{
    if k < 0 || k >= 4 {
        (visited, work)
    } else if step_inside(g, pos, k) && !visited.contains(pos.neighbor(k)) && g.at(pos.neighbor(k))
        != CellType::Wall {
        expand_from(
            g,
            visited.insert(pos.neighbor(k)),
            work.push((pos.neighbor(k), path.push(pos.neighbor(k)))),
            pos,
            path,
            k + 1,
        )
    } else {
        expand_from(g, visited, work, pos, path, k + 1)
    }
}

/// What the search reports from a given state within `fuel` steps: the
/// walk of the top entry if its cell is an `Exit`, else what it reports
/// after that entry was expanded; `None` once the work list is empty.
pub open spec fn search(
    g: Grid,
    visited: Set<Pos>,
    work: Seq<(Pos, Seq<Pos>)>,
    fuel: nat,
) -> Option<Seq<Pos>>
    decreases fuel,
{
    if fuel == 0 || work.len() == 0 {
        None
    } else if g.at(work.last().0) == CellType::Exit {
        Some(work.last().1)
    } else {
        let next = expand_from(g, visited, work.drop_last(), work.last().0, work.last().1, 0);
        search(g, next.0, next.1, (fuel - 1) as nat)
    }
}

/// The visited cells and the work list after the room was scanned from
/// column `x` of row `y` on: each room cell with a traversable neighbour
/// outside the room is marked and put at the bottom of the work list.
pub open spec fn seed_from(
    g: Grid,
    visited: Set<Pos>,
    work: Seq<(Pos, Seq<Pos>)>,
    x: int,
    y: int,
) -> (Set<Pos>, Seq<(Pos, Seq<Pos>)>)
    decreases g.height / 2 + g.room_half() + 1 - y, g.width / 2 + g.room_half() + 1 - x,
{
    let here = Pos { x: x as usize, y: y as usize };
    if y > g.height / 2 + g.room_half() || x < 0 {
        (visited, work)
    } else if x > g.width / 2 + g.room_half() {
        seed_from(g, visited, work, g.width / 2 - g.room_half(), y + 1)
    } else if room_seed(g, here) {
        seed_from(g, visited.insert(here), seq![(here, seq![here])] + work, x + 1, y)
    } else {
        seed_from(g, visited, work, x + 1, y)
    }
}

/// What the search reports for `g`: it starts with the centre on the work
/// list, seeds the list from the room, and never takes more steps than
/// the grid has cells, and one.
pub open spec fn search_result(g: Grid) -> Option<Seq<Pos>> {
    let c = g.center();
    let seeded = seed_from(
        g,
        set![c],
        seq![(c, seq![c])],
        g.width / 2 - g.room_half(),
        g.height / 2 - g.room_half(),
    );
    search(g, seeded.0, seeded.1, g.width * g.height + 1)
}

/// A cell that shares an edge with `a` is one of its four neighbours.
pub proof fn lemma_adjacent_is_neighbor(g: Grid, a: Pos, b: Pos)
    requires
        g.wf(),
        g.contains(a),
        g.contains(b),
        adjacent(a, b),
    ensures
        exists|k: int| 0 <= k < 4 && step_inside(g, a, k) && b == #[trigger] a.neighbor(k),
{
    if a.y == b.y && a.x + 1 == b.x {
        assert(step_inside(g, a, 0) && b == a.neighbor(0));
    } else if a.y == b.y && b.x + 1 == a.x {
        assert(step_inside(g, a, 1) && b == a.neighbor(1));
    } else if a.x == b.x && a.y + 1 == b.y {
        assert(step_inside(g, a, 2) && b == a.neighbor(2));
    } else {
        assert(step_inside(g, a, 3) && b == a.neighbor(3));
    }
}

/// Once every visited cell is expanded, a walk that starts at a visited
/// cell never leaves the visited cells.
proof fn lemma_walk_stays(g: Grid, visited: Set<Pos>, w: Seq<Pos>, i: int)
    requires
        g.wf(),
        forall|p: Pos| #[trigger] visited.contains(p) ==> g.contains(p) && expanded(g, visited, p),
        is_walk(g, w),
        visited.contains(w[0]),
        0 <= i < w.len(),
    ensures
        visited.contains(w[i]),
    decreases i,
{
    if i > 0 {
        lemma_walk_stays(g, visited, w, i - 1);
        let a = w[i - 1];
        let b = w[i];
        assert(adjacent(a, w[i - 1 + 1]));
        assert(g.open(b));
        lemma_adjacent_is_neighbor(g, a, b);
        let k = choose|k: int| 0 <= k < 4 && step_inside(g, a, k) && b == #[trigger] a.neighbor(k);
        assert(expanded(g, visited, a));
    }
}

/// A generated maze has a route, so the search reports one for every maze
/// that `generate` has produced.
pub proof fn lemma_generated_has_route(g0: Grid, g: Grid, e: Pos)
    requires
        crate::generate::generated(g0, g, e),
    ensures
        exists|w: Seq<Pos>| is_route(g, w),
{
    reveal(crate::reach::connected);
    let w = choose|w: Seq<Pos>| crate::reach::connects(g, w, g.center(), e);
    assert(is_route(g, w));
}

impl Maze {
    /// Whether `p` belongs to the central room.
    pub fn in_room(&self, p: Pos) -> (b: bool)
        requires
            self.wf(),
            self@.room_fits(),
        ensures
            b == self@.in_room(p),
    {
        let (width, height) = self.get_size();
        let half = self.room_size() / 2;
        let cx = width / 2;
        let cy = height / 2;
        p.x >= cx - half && p.x <= cx + half && p.y >= cy - half && p.y <= cy + half
    }

    /// Whether the cell `p` has a traversable neighbour outside the room.
    fn leads_out(&self, p: Pos) -> (b: bool)
        requires
            self.wf(),
            self@.room_fits(),
            self@.contains(p),
        ensures
            b == exists|k: int| 0 <= k < 4 && #[trigger] leads_out_toward(self@, p, k),
    {
        let mut k: usize = 0;
        while k < 4
            invariant
                self.wf(),
                self@.room_fits(),
                self@.contains(p),
                k <= 4,
                forall|j: int| 0 <= j < k ==> !leads_out_toward(self@, p, j),
            decreases 4 - k,
        {
            match self.step_toward(p, k) {
                Some(n) => {
                    if self.get(n.x, n.y).is_traversable() && !self.in_room(n) {
                        assert(leads_out_toward(self@, p, k as int));
                        return true;
                    }
                },
                None => {},
            }
            k += 1;
        }
        false
    }

    /// Puts every room cell with a traversable neighbour outside the room
    /// at the front of the work list, each with the walk that holds only
    /// itself, and marks it visited.
    fn seed_room(&self, visited: &mut CellSet, work: &mut Vec<(Pos, Vec<Pos>)>)
        requires
            self.wf(),
            self@.room_fits(),
            old(visited).wf(),
            old(visited).width() == self@.width,
            old(visited).height() == self@.height,
            searching(self@, old(visited)@, old(work)@, None),
            old(visited)@ == set![self@.center()],
        ensures
            final(visited).wf(),
            final(visited).width() == self@.width,
            final(visited).height() == self@.height,
            searching(self@, final(visited)@, final(work)@, None),
            forall|p: Pos| old(visited)@.contains(p) ==> final(visited)@.contains(p),
            forall|p: Pos| room_seed(self@, p) ==> final(visited)@.contains(p),
            (final(visited)@, entries(final(work)@)) == seed_from(
                self@,
                old(visited)@,
                entries(old(work)@),
                self@.width / 2 - self@.room_half(),
                self@.height / 2 - self@.room_half(),
            ),
            final(work)@.len() + final(visited).free() <= old(work)@.len() + old(visited).free() + 1,
    {
        let (width, height) = self.get_size();
        let half = self.room_size() / 2;
        proof {
            crate::generate::lemma_odd_center(width as int);
            crate::generate::lemma_odd_center(height as int);
        }
        let x0 = width / 2 - half;
        let x1 = width / 2 + half;
        let y0 = height / 2 - half;
        let y1 = height / 2 + half;
        let mut y = y0;
        while y <= y1
            invariant
                self.wf(),
                self@.room_fits(),
                width == self@.width,
                height == self@.height,
                half == self@.room_half(),
                x0 == width / 2 - half,
                x1 == width / 2 + half,
                y0 == height / 2 - half,
                y1 == height / 2 + half,
                x1 < width,
                y1 < height,
                y0 <= y <= y1 + 1,
                visited.wf(),
                visited.width() == self@.width,
                visited.height() == self@.height,
                searching(self@, visited@, work@, None),
                forall|p: Pos| old(visited)@.contains(p) ==> visited@.contains(p),
                forall|p: Pos| room_seed(self@, p) && p.y < y ==> visited@.contains(p),
                forall|p: Pos| #[trigger] visited@.contains(p) ==> p == self@.center() || p.y < y,
                seed_from(self@, old(visited)@, entries(old(work)@), x0 as int, y0 as int)
                    == seed_from(self@, visited@, entries(work@), x0 as int, y as int),
                work@.len() + visited.free() <= old(work)@.len() + old(visited).free() + (
                if self@.center().y < y {
                    1int
                } else {
                    0int
                }),
            decreases y1 + 1 - y,
        {
            let mut x = x0;
            while x <= x1
                invariant
                    self.wf(),
                    self@.room_fits(),
                    width == self@.width,
                    height == self@.height,
                    half == self@.room_half(),
                    x0 == width / 2 - half,
                    x1 == width / 2 + half,
                    y0 == height / 2 - half,
                    y1 == height / 2 + half,
                    x1 < width,
                    y1 < height,
                    y0 <= y <= y1,
                    x0 <= x <= x1 + 1,
                    visited.wf(),
                    visited.width() == self@.width,
                    visited.height() == self@.height,
                    searching(self@, visited@, work@, None),
                    forall|p: Pos| old(visited)@.contains(p) ==> visited@.contains(p),
                    forall|p: Pos|
                        room_seed(self@, p) && (p.y < y || (p.y == y && p.x < x))
                            ==> visited@.contains(p),
                    forall|p: Pos| #[trigger]
                        visited@.contains(p) ==> p == self@.center() || p.y < y || (p.y == y && p.x
                            < x),
                    seed_from(self@, old(visited)@, entries(old(work)@), x0 as int, y0 as int)
                        == seed_from(self@, visited@, entries(work@), x as int, y as int),
                    work@.len() + visited.free() <= old(work)@.len() + old(visited).free() + (
                    if self@.center().y < y || (self@.center().y == y && self@.center().x < x) {
                        1int
                    } else {
                        0int
                    }),
                decreases x1 + 1 - x,
            {
                let pos = Pos { x, y };
                let ghost seen0 = visited@;
                let ghost list0 = entries(work@);
                if (x == x0 || x == x1 || y == y0 || y == y1) && self.leads_out(pos) {
                    let ghost seen = visited@;
                    let ghost before = work@;
                    let mut path: Vec<Pos> = Vec::new();
                    path.push(pos);
                    work.insert(0, (pos, path));
                    visited.insert(pos);
                    proof {
                        let now = work@;
                        let seen2 = visited@;
                        assert(room_seed(self@, pos));
                        assert(now[0].1@ =~= seq![pos]);
                        assert(entries(now) =~= seq![(pos, seq![pos])] + list0);
                        assert(seed_from(self@, seen0, list0, x as int, y as int) == seed_from(
                            self@,
                            seen2,
                            entries(now),
                            x + 1,
                            y as int,
                        ));
                        assert forall|i: int| 0 <= i < now.len() implies entry_ok(
                            self@,
                            seen2,
                            (#[trigger] now[i]).0,
                            now[i].1@,
                        ) by {
                            if i > 0 {
                                assert(now[i] == before[i - 1]);
                                assert(entry_ok(self@, seen, before[i - 1].0, before[i - 1].1@));
                            }
                        }
                        assert forall|p: Pos| #[trigger] seen2.contains(p) implies self@.contains(p)
                            && (waiting(now, p) || expanded(self@, seen2, p)) by {
                            if p == pos {
                                assert(now[0].0 == p);
                            } else {
                                assert(seen.contains(p));
                                if waiting(before, p) {
                                    let i = choose|i: int|
                                        0 <= i < before.len() && (#[trigger] before[i]).0 == p;
                                    assert(now[i + 1] == before[i]);
                                } else {
                                    assert(expanded(self@, seen, p));
                                }
                            }
                        }
                    }
                } else {
                    proof {
                        if room_seed(self@, pos) {
                            let k = choose|k: int|
                                0 <= k < 4 && #[trigger] leads_out_toward(self@, pos, k);
                            assert(!self@.in_room(pos.neighbor(k)));
                        }
                        assert(seed_from(self@, seen0, list0, x as int, y as int) == seed_from(
                            self@,
                            seen0,
                            list0,
                            x + 1,
                            y as int,
                        ));
                    }
                }
                x += 1;
            }
            proof {
                assert(seed_from(self@, visited@, entries(work@), x as int, y as int) == seed_from(
                    self@,
                    visited@,
                    entries(work@),
                    x0 as int,
                    y + 1,
                ));
            }
            y += 1;
        }
    }

    /// Expands `pos`: every traversable neighbour that has not been visited
    /// goes on top of the work list, with `path` extended by it, and is
    /// marked visited at once.
    fn explore(
        &self,
        pos: Pos,
        path: &Vec<Pos>,
        visited: &mut CellSet,
        work: &mut Vec<(Pos, Vec<Pos>)>,
    )
        requires
            self.wf(),
            old(visited).wf(),
            old(visited).width() == self@.width,
            old(visited).height() == self@.height,
            searching(self@, old(visited)@, old(work)@, Some(pos)),
            entry_ok(self@, old(visited)@, pos, path@),
            self@.at(pos) != CellType::Exit,
        ensures
            final(visited).wf(),
            final(visited).width() == self@.width,
            final(visited).height() == self@.height,
            searching(self@, final(visited)@, final(work)@, None),
            forall|p: Pos| old(visited)@.contains(p) ==> final(visited)@.contains(p),
            final(work)@.len() + final(visited).free() == old(work)@.len() + old(visited).free(),
            final(work)@.len() >= old(work)@.len(),
            (final(visited)@, entries(final(work)@)) == expand_from(
                self@,
                old(visited)@,
                entries(old(work)@),
                pos,
                path@,
                0,
            ),
    {
        let mut k: usize = 0;
        proof {
            assert(self@.contains(pos));
        }
        while k < 4
            invariant
                self.wf(),
                visited.wf(),
                visited.width() == self@.width,
                visited.height() == self@.height,
                self@.contains(pos),
                k <= 4,
                searching(self@, visited@, work@, Some(pos)),
                entry_ok(self@, visited@, pos, path@),
                forall|p: Pos| old(visited)@.contains(p) ==> visited@.contains(p),
                forall|j: int|
                    0 <= j < k && step_inside(self@, pos, j) && self@.at(#[trigger] pos.neighbor(j))
                        != CellType::Wall ==> visited@.contains(pos.neighbor(j)),
                work@.len() + visited.free() == old(work)@.len() + old(visited).free(),
                work@.len() >= old(work)@.len(),
                expand_from(self@, old(visited)@, entries(old(work)@), pos, path@, 0)
                    == expand_from(self@, visited@, entries(work@), pos, path@, k as int),
            decreases 4 - k,
        {
            let ghost seen0 = visited@;
            let ghost list0 = entries(work@);
            proof {
                assert(expand_from(self@, seen0, list0, pos, path@, k as int) == (if step_inside(
                    self@,
                    pos,
                    k as int,
                ) && !seen0.contains(pos.neighbor(k as int)) && self@.at(pos.neighbor(k as int))
                    != CellType::Wall {
                    expand_from(
                        self@,
                        seen0.insert(pos.neighbor(k as int)),
                        list0.push(
                            (pos.neighbor(k as int), path@.push(pos.neighbor(k as int))),
                        ),
                        pos,
                        path@,
                        k + 1,
                    )
                } else {
                    expand_from(self@, seen0, list0, pos, path@, k + 1)
                }));
            }
            match self.step_toward(pos, k) {
                Some(next) => {
                    if !visited.contains(next) && self.get(next.x, next.y).is_traversable() {
                        let ghost seen = visited@;
                        let ghost before = work@;
                        let mut new_path = path.clone();
                        assert(new_path@ =~= path@);
                        new_path.push(next);
                        work.push((next, new_path));
                        visited.insert(next);
                        proof {
                            let now = work@;
                            let seen2 = visited@;
                            lemma_walk_extend(self@, path@, next);
                            assert(now[now.len() - 1].1@ == path@.push(next));
                            assert(entries(now) =~= list0.push((next, path@.push(next))));
                            assert forall|i: int| 0 <= i < now.len() implies entry_ok(
                                self@,
                                seen2,
                                (#[trigger] now[i]).0,
                                now[i].1@,
                            ) by {
                                if i < before.len() {
                                    assert(now[i] == before[i]);
                                    assert(entry_ok(self@, seen, before[i].0, before[i].1@));
                                }
                            }
                            assert forall|p: Pos| #[trigger] seen2.contains(p) implies self@.contains(
                                p,
                            ) && (waiting(now, p) || expanded(self@, seen2, p) || Some(pos) == Some(
                                p,
                            )) by {
                                if p == next {
                                    assert(now[now.len() - 1].0 == p);
                                } else {
                                    assert(seen.contains(p));
                                    if waiting(before, p) {
                                        let i = choose|i: int|
                                            0 <= i < before.len() && (#[trigger] before[i]).0 == p;
                                        assert(now[i] == before[i]);
                                    } else if p != pos {
                                        assert(expanded(self@, seen, p));
                                    }
                                }
                            }
                        }
                    }
                },
                None => {},
            }
            k += 1;
        }
        proof {
            assert(expanded(self@, visited@, pos));
        }
    }

    /// Searches a route from the centre to an `Exit` cell.
    ///
    /// The work list starts with the room cells that have a traversable
    /// neighbour outside the room, and on top of them the centre. The
    /// search takes the entry on top; if its cell is an `Exit` it reports
    /// the walk that led there, else it puts the unvisited traversable
    /// neighbours on top. It reports `None` exactly when no walk leads from
    /// a start of the search to an `Exit` cell.
    pub fn route_search(&self) -> (route: Option<Vec<Pos>>)
        requires
            self.wf(),
            self@.room_fits(),
        ensures
            match route {
                Some(path) => is_route(self@, path@) && search_result(self@) == Some(path@),
                None => search_result(self@) is None && forall|w: Seq<Pos>| !is_route(self@, w),
            },
    {
        let (width, height) = self.get_size();
        let start = self.center();
        proof {
            self.lemma_addressable();
            crate::generate::lemma_exit_meets_lattice(self@, 0);
        }
        let mut visited = CellSet::new(width, height);
        let mut work: Vec<(Pos, Vec<Pos>)> = Vec::new();
        let mut first: Vec<Pos> = Vec::new();
        first.push(start);
        work.push((start, first));
        visited.insert(start);
        proof {
            assert(work@[0].1@ =~= seq![start]);
            assert(work@[0].0 == start);
            assert forall|p: Pos| #[trigger] visited@.contains(p) implies waiting(work@, p) by {
                assert(work@[0].0 == p);
            }
            assert(visited@ =~= set![start]);
            assert(entries(work@) =~= seq![(start, seq![start])]);
        }
        self.seed_room(&mut visited, &mut work);
        let ghost mut fuel: nat = (width * height + 1) as nat;
        while work.len() > 0
            invariant
                self.wf(),
                visited.wf(),
                visited.width() == self@.width,
                visited.height() == self@.height,
                searching(self@, visited@, work@, None),
                forall|p: Pos| route_start(self@, p) ==> visited@.contains(p),
                fuel >= work@.len() + visited.free(),
                search(self@, visited@, entries(work@), fuel) == search_result(self@),
            decreases visited.free(), work.len(),
        {
            let ghost before = work@;
            let ghost list0 = entries(work@);
            let ghost seen0 = visited@;
            let (pos, path) = work.pop().unwrap();
            proof {
                assert(list0.last() == (pos, path@));
                assert(entries(work@) =~= list0.drop_last());
                assert(before[before.len() - 1] == (pos, path));
                assert(entry_ok(self@, visited@, pos, path@));
                assert forall|i: int| 0 <= i < work@.len() implies entry_ok(
                    self@,
                    visited@,
                    (#[trigger] work@[i]).0,
                    work@[i].1@,
                ) by {
                    assert(work@[i] == before[i]);
                }
                assert forall|p: Pos| #[trigger] visited@.contains(p) implies self@.contains(p) && (
                waiting(work@, p) || expanded(self@, visited@, p) || Some(pos) == Some(p)) by {
                    if waiting(before, p) {
                        let i = choose|i: int| 0 <= i < before.len() && (#[trigger] before[i]).0 == p;
                        if i < work@.len() {
                            assert(work@[i] == before[i]);
                        }
                    }
                }
            }
            if self.get(pos.x, pos.y) == CellType::Exit {
                return Some(path);
            }
            self.explore(pos, &path, &mut visited, &mut work);
            proof {
                assert(search(self@, seen0, list0, fuel) == search(
                    self@,
                    visited@,
                    entries(work@),
                    (fuel - 1) as nat,
                ));
                fuel = (fuel - 1) as nat;
            }
        }
        proof {
            assert forall|w: Seq<Pos>| !is_route(self@, w) by {
                if is_route(self@, w) {
                    assert forall|p: Pos| #[trigger] visited@.contains(p) implies self@.contains(p)
                        && expanded(self@, visited@, p) by {
                        if waiting(work@, p) {
                            let i = choose|i: int|
                                0 <= i < work@.len() && (#[trigger] work@[i]).0 == p;
                        }
                    }
                    lemma_walk_stays(self@, visited@, w, w.len() - 1);
                    assert(expanded(self@, visited@, w.last()));
                }
            }
        }
        None
    }

    /// The route from the centre to the exit, as `route_search` finds it.
    /// The maze is left as it was.
    pub fn shortest_path(&mut self) -> (route: Option<Vec<Pos>>)
        requires
            old(self).wf(),
            old(self)@.room_fits(),
        ensures
            final(self).wf(),
            final(self)@ == old(self)@,
            match route {
                Some(path) => is_route(old(self)@, path@) && search_result(old(self)@) == Some(
                    path@,
                ),
                None => search_result(old(self)@) is None && forall|w: Seq<Pos>|
                    !is_route(old(self)@, w),
            },
    {
        self.route_search()
    }
}

} // verus!
