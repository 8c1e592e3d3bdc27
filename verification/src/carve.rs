//! The carver: randomized depth-first backtracking over the lattice of cells
//! that lie an even number of steps from the start in both directions.

use crate::cell::CellType;
use crate::grid::{Grid, Maze};
use crate::mask::CellSet;
use crate::pos::{adjacent, dir_dx, dir_dy, Pos};
use crate::random::pick;
use crate::reach::{
    connected, lemma_connected_self, lemma_connected_step, lemma_connected_survives, opens_more,
};
use vstd::prelude::*;

verus! {

/// `p` is an interior cell an even number of columns and rows from `start`.
pub open spec fn lattice(g: Grid, start: Pos, p: Pos) -> bool {
    g.interior(p) && p.x % 2 == start.x % 2 && p.y % 2 == start.y % 2
}

/// From `pos`, the carver may move two cells in direction `k`: the target is
/// an interior cell that has not been visited.
pub open spec fn carve_ok(g: Grid, visited: Set<Pos>, pos: Pos, k: int) -> bool {
    &&& 0 < pos.x + 2 * dir_dx(k) < g.width - 1
    &&& 0 < pos.y + 2 * dir_dy(k) < g.height - 1
    &&& !visited.contains(pos.leap(k))
}

/// The move in direction `k`: the target cell and the wall cell in between.
pub open spec fn carve_step(pos: Pos, k: int) -> (Pos, Pos) {
    (pos.leap(k), pos.neighbor(k))
}

/// The moves open to the carver among the first `n` directions, in
/// direction order.
pub open spec fn carve_choices_upto(g: Grid, visited: Set<Pos>, pos: Pos, n: int) -> Seq<
    (Pos, Pos),
>
    decreases n,
{
    if n <= 0 {
        Seq::empty()
    } else {
        let rest = carve_choices_upto(g, visited, pos, n - 1);
        if carve_ok(g, visited, pos, n - 1) {
            rest.push(carve_step(pos, n - 1))
        } else {
            rest
        }
    }
}

/// The moves open to the carver at `pos`: right, left, down, up, each only
/// if its target is interior and unvisited.
pub open spec fn carve_choices(g: Grid, visited: Set<Pos>, pos: Pos) -> Seq<(Pos, Pos)> {
    carve_choices_upto(g, visited, pos, 4)
}

/// The grid after the moves in `moves` were carved one after the other:
/// the wall cell and the target of each became `Path`.
pub open spec fn carve_replay(g: Grid, moves: Seq<(Pos, Pos)>) -> Grid
    decreases moves.len(),
{
    if moves.len() == 0 {
        g
    } else {
        carve_replay(g, moves.drop_last()).put(moves.last().1, CellType::Path).put(
            moves.last().0,
            CellType::Path,
        )
    }
}

/// The cells the carver has reached by `moves`, in the order in which it
/// reached them: the start, then the target of every move.
pub open spec fn reach_order(start: Pos, moves: Seq<(Pos, Pos)>) -> Seq<Pos> {
    seq![start] + Seq::new(moves.len(), |i: int| moves[i].0)
}

/// The cells the carver has reached by `moves`.
pub open spec fn targets(start: Pos, moves: Seq<(Pos, Pos)>) -> Set<Pos> {
    Set::new(|p: Pos| reach_order(start, moves).contains(p))
}

/// The `j`-th move went depth first: it led from the cell reached last
/// among those that still had an open move, to an interior cell two steps
/// away that had not been reached.
pub open spec fn move_ok(g: Grid, start: Pos, moves: Seq<(Pos, Pos)>, j: int) -> bool {
    let order = reach_order(start, moves.take(j));
    let seen = targets(start, moves.take(j));
    exists|m: int, k: int|
        0 <= m < order.len() && 0 <= k < 4 && #[trigger] carve_ok(g, seen, order[m], k) && moves[j]
            == carve_step(order[m], k) && forall|n: int|
            m < n < order.len() ==> closed_at(g, seen, #[trigger] order[n])
}

/// One more move adds its target to the cells reached.
pub proof fn lemma_reach_push(start: Pos, moves: Seq<(Pos, Pos)>, step: (Pos, Pos))
    ensures
        reach_order(start, moves.push(step)) == reach_order(start, moves).push(step.0),
        targets(start, moves.push(step)) == targets(start, moves).insert(step.0),
{
    let more = reach_order(start, moves.push(step));
    let old_order = reach_order(start, moves);
    assert(more =~= old_order.push(step.0));
    assert forall|p: Pos| more.contains(p) <==> old_order.contains(p) || p == step.0 by {
        if old_order.contains(p) {
            let i = choose|i: int| 0 <= i < old_order.len() && old_order[i] == p;
            assert(more[i] == p);
        }
        if p == step.0 {
            assert(more[more.len() - 1] == p);
        }
    }
    assert(targets(start, moves.push(step)) =~= targets(start, moves).insert(step.0));
}

/// `moves` is a run of the carver from `start` that turned `g0` into `g`:
/// every move went depth first and joined a new lattice cell to one
/// reached before, and every lattice cell was reached. The moves are the
/// edges of a spanning tree of the lattice, rooted at `start`.
pub open spec fn carved_along(g0: Grid, start: Pos, moves: Seq<(Pos, Pos)>, g: Grid) -> bool {
    &&& g == carve_replay(g0, moves)
    &&& forall|j: int| 0 <= j < moves.len() ==> #[trigger] move_ok(g0, start, moves, j)
    &&& forall|p: Pos| lattice(g0, start, p) ==> #[trigger] targets(start, moves).contains(p)
}

/// No move is open at `p`.
pub open spec fn closed_at(g: Grid, visited: Set<Pos>, p: Pos) -> bool {
    forall|k: int| 0 <= k < 4 ==> !carve_ok(g, visited, p, k)
}

/// `step` is an open move at `pos` in one of the first `n` directions.
pub open spec fn open_move(g: Grid, visited: Set<Pos>, pos: Pos, n: int, step: (Pos, Pos)) -> bool {
    exists|k: int| 0 <= k < n && #[trigger] carve_ok(g, visited, pos, k) && step == carve_step(pos, k)
}

/// Every listed move is an open move; if none is listed, none is open.
pub proof fn lemma_carve_choices(g: Grid, visited: Set<Pos>, pos: Pos, n: int)
    requires
        0 <= n <= 4,
    ensures
        forall|i: int|
            0 <= i < carve_choices_upto(g, visited, pos, n).len() ==> open_move(
                g,
                visited,
                pos,
                n,
                #[trigger] carve_choices_upto(g, visited, pos, n)[i],
            ),
        carve_choices_upto(g, visited, pos, n).len() == 0 ==> forall|k: int|
            0 <= k < n ==> !carve_ok(g, visited, pos, k),
    decreases n,
{
    if n > 0 {
        lemma_carve_choices(g, visited, pos, n - 1);
        let rest = carve_choices_upto(g, visited, pos, n - 1);
        let all = carve_choices_upto(g, visited, pos, n);
        assert forall|i: int| 0 <= i < all.len() implies open_move(
            g,
            visited,
            pos,
            n,
            #[trigger] all[i],
        ) by {
            if i < rest.len() {
                assert(all[i] == rest[i]);
                assert(open_move(g, visited, pos, n - 1, rest[i]));
                let k = choose|k: int|
                    0 <= k < n - 1 && #[trigger] carve_ok(g, visited, pos, k) && rest[i]
                        == carve_step(pos, k);
                assert(carve_ok(g, visited, pos, k));
            } else {
                assert(carve_ok(g, visited, pos, n - 1));
                assert(all[i] == carve_step(pos, n - 1));
            }
        }
    }
}

/// Where the move in direction `k` from a lattice cell leads.
proof fn lemma_carve_geometry(g: Grid, start: Pos, visited: Set<Pos>, pos: Pos, k: int)
    requires
        g.wf(),
        lattice(g, start, pos),
        0 <= k < 4,
        carve_ok(g, visited, pos, k),
    ensures
        g.interior(pos.neighbor(k)),
        lattice(g, start, pos.leap(k)),
        adjacent(pos, pos.neighbor(k)),
        adjacent(pos.neighbor(k), pos.leap(k)),
        pos.leap(k) != pos,
{
    let wall = pos.neighbor(k);
    let next = pos.leap(k);
    assert(wall.x == pos.x + dir_dx(k));
    assert(wall.y == pos.y + dir_dy(k));
    assert(next.x == pos.x + 2 * dir_dx(k));
    assert(next.y == pos.y + 2 * dir_dy(k));
}

/// What the carving loop maintains: the visited cells are lattice cells,
/// carved and reachable from `start`; each is on the stack or has no open
/// move left; and only interior cells have changed, to `Path`.
spec fn carving(g0: Grid, g: Grid, start: Pos, seen: Set<Pos>, stack: Seq<Pos>) -> bool {
    &&& g.wf()
    &&& g.same_shape(g0)
    &&& g.interior(start)
    &&& seen.contains(start)
    &&& forall|p: Pos| #[trigger] seen.contains(p) ==> lattice(g, start, p)
    &&& forall|p: Pos| #[trigger] seen.contains(p) && p != start ==> g.at(p) == CellType::Path
    &&& forall|p: Pos| #[trigger] seen.contains(p) ==> connected(g, start, p)
    &&& forall|i: int| 0 <= i < stack.len() ==> seen.contains(#[trigger] stack[i])
    &&& forall|p: Pos| #[trigger] seen.contains(p) ==> stack.contains(p) || closed_at(g, seen, p)
    &&& forall|p: Pos|
        g.contains(p) ==> #[trigger] g.at(p) == CellType::Path || g.at(p) == g0.at(p)
    &&& forall|p: Pos| g.contains(p) && !g.interior(p) ==> #[trigger] g.at(p) == g0.at(p)
}

/// Carving two interior cells changes nothing else and closes nothing.
proof fn lemma_carve_grid(g: Grid, wall: Pos, next: Pos)
    requires
        g.wf(),
        g.interior(wall),
        g.interior(next),
    ensures
        ({
            let g2 = g.put(wall, CellType::Path).put(next, CellType::Path);
            &&& g2.wf()
            &&& g2.same_shape(g)
            &&& opens_more(g, g2)
            &&& g2.at(wall) == CellType::Path
            &&& g2.at(next) == CellType::Path
            &&& forall|p: Pos| p != wall && p != next ==> #[trigger] g2.at(p) == g.at(p)
        }),
{
    let g1 = g.put(wall, CellType::Path);
    let g2 = g1.put(next, CellType::Path);
    g.lemma_put(wall, CellType::Path);
    g1.lemma_put(next, CellType::Path);
    assert forall|p: Pos| g.open(p) implies #[trigger] g2.open(p) by {
        if p != wall && p != next {
            assert(g2.at(p) == g1.at(p));
            assert(g1.at(p) == g.at(p));
        }
    }
    assert forall|p: Pos| p != wall && p != next implies #[trigger] g2.at(p) == g.at(p) by {
        assert(g2.at(p) == g1.at(p));
        assert(g1.at(p) == g.at(p));
    }
}

/// Taking the open move in direction `k` from the top of the stack.
proof fn lemma_carve_push(
    g0: Grid,
    g: Grid,
    g2: Grid,
    start: Pos,
    seen: Set<Pos>,
    stack: Seq<Pos>,
    k: int,
)
    requires
        carving(g0, g, start, seen, stack),
        stack.len() > 0,
        0 <= k < 4,
        carve_ok(g, seen, stack.last(), k),
        g2 == g.put(stack.last().neighbor(k), CellType::Path).put(
            stack.last().leap(k),
            CellType::Path,
        ),
    ensures
        g.interior(stack.last().neighbor(k)),
        g.interior(stack.last().leap(k)),
        !seen.contains(stack.last().leap(k)),
        carving(g0, g2, start, seen.insert(stack.last().leap(k)), stack.push(stack.last().leap(k))),
{
    let pos = stack.last();
    let next = pos.leap(k);
    let wall = pos.neighbor(k);
    let seen2 = seen.insert(next);
    let stack2 = stack.push(next);
    assert(seen.contains(pos));
    lemma_carve_geometry(g, start, seen, pos, k);
    lemma_carve_grid(g, wall, next);
    assert(connected(g2, start, next)) by {
        lemma_connected_survives(g, g2, start, pos);
        lemma_connected_step(g2, start, pos, wall);
        lemma_connected_step(g2, start, wall, next);
    }
    assert forall|p: Pos| #[trigger] seen2.contains(p) implies lattice(g2, start, p) by {
        if p != next {
            assert(seen.contains(p));
        }
    }
    assert forall|p: Pos| #[trigger] seen2.contains(p) && p != start implies g2.at(p)
        == CellType::Path by {
        if p != next && p != wall {
            assert(seen.contains(p));
            assert(g2.at(p) == g.at(p));
        }
    }
    assert forall|p: Pos| #[trigger] seen2.contains(p) implies connected(g2, start, p) by {
        if p != next {
            assert(seen.contains(p));
            lemma_connected_survives(g, g2, start, p);
        }
    }
    assert forall|i: int| 0 <= i < stack2.len() implies seen2.contains(#[trigger] stack2[i]) by {
        if i < stack.len() {
            assert(stack2[i] == stack[i]);
        }
    }
    assert forall|p: Pos| #[trigger] seen2.contains(p) implies stack2.contains(p) || closed_at(
        g2,
        seen2,
        p,
    ) by {
        if p == next {
            assert(stack2[stack2.len() - 1] == next);
        } else {
            assert(seen.contains(p));
            if stack.contains(p) {
                let i = choose|i: int| 0 <= i < stack.len() && stack[i] == p;
                assert(stack2[i] == p);
            } else {
                assert(closed_at(g, seen, p));
                assert forall|j: int| 0 <= j < 4 implies !carve_ok(g2, seen2, p, j) by {
                    assert(!carve_ok(g, seen, p, j));
                }
            }
        }
    }
    assert forall|p: Pos| g2.contains(p) implies #[trigger] g2.at(p) == CellType::Path || g2.at(p)
        == g0.at(p) by {
        if p != next && p != wall {
            assert(g2.at(p) == g.at(p));
        }
    }
    assert forall|p: Pos| g2.contains(p) && !g2.interior(p) implies #[trigger] g2.at(p) == g0.at(
        p,
    ) by {
        assert(g2.at(p) == g.at(p));
    }
}

/// Dropping the top of the stack once it has no open move left.
proof fn lemma_carve_pop(g0: Grid, g: Grid, start: Pos, seen: Set<Pos>, stack: Seq<Pos>)
    requires
        carving(g0, g, start, seen, stack),
        stack.len() > 0,
        closed_at(g, seen, stack.last()),
    ensures
        carving(g0, g, start, seen, stack.drop_last()),
{
    let rest = stack.drop_last();
    assert forall|i: int| 0 <= i < rest.len() implies seen.contains(#[trigger] rest[i]) by {
        assert(rest[i] == stack[i]);
    }
    assert forall|p: Pos| #[trigger] seen.contains(p) implies rest.contains(p) || closed_at(
        g,
        seen,
        p,
    ) by {
        if stack.contains(p) && p != stack.last() {
            let i = choose|i: int| 0 <= i < stack.len() && stack[i] == p;
            assert(rest[i] == p);
        }
    }
}

/// A visited set that holds `start` and is closed under open moves holds
/// every lattice cell.
proof fn lemma_closed_covers(g: Grid, start: Pos, visited: Set<Pos>, p: Pos)
    requires
        g.interior(start),
        visited.contains(start),
        forall|q: Pos| visited.contains(q) ==> #[trigger] closed_at(g, visited, q),
        lattice(g, start, p),
    ensures
        visited.contains(p),
    decreases
            (if p.x >= start.x {
                p.x - start.x
            } else {
                start.x - p.x
            }) + (if p.y >= start.y {
                p.y - start.y
            } else {
                start.y - p.y
            }),
{
    if p == start {
    } else if p.x > start.x {
        let q = Pos { x: (p.x - 2) as usize, y: p.y };
        lemma_closed_covers(g, start, visited, q);
        assert(closed_at(g, visited, q));
        assert(q.leap(0) == p);
        assert(!carve_ok(g, visited, q, 0));
    } else if p.x < start.x {
        let q = Pos { x: (p.x + 2) as usize, y: p.y };
        lemma_closed_covers(g, start, visited, q);
        assert(closed_at(g, visited, q));
        assert(q.leap(1) == p);
        assert(!carve_ok(g, visited, q, 1));
    } else if p.y > start.y {
        let q = Pos { x: p.x, y: (p.y - 2) as usize };
        lemma_closed_covers(g, start, visited, q);
        assert(closed_at(g, visited, q));
        assert(q.leap(2) == p);
        assert(!carve_ok(g, visited, q, 2));
    } else {
        let q = Pos { x: p.x, y: (p.y + 2) as usize };
        lemma_closed_covers(g, start, visited, q);
        assert(closed_at(g, visited, q));
        assert(q.leap(3) == p);
        assert(!carve_ok(g, visited, q, 3));
    }
}

impl Maze {
    /// The move from `pos` in direction `k`, if its target is an interior cell.
    fn carve_target(&self, pos: Pos, k: usize) -> (r: Option<(Pos, Pos)>)
        requires
            self.wf(),
            self@.interior(pos),
            k < 4,
        ensures
            r is Some <==> (0 < pos.x + 2 * dir_dx(k as int) < self@.width - 1 && 0 < pos.y + 2
                * dir_dy(k as int) < self@.height - 1),
            r is Some ==> r->Some_0 == carve_step(pos, k as int),
    {
        let (width, height) = self.get_size();
        if k == 0 {
            if pos.x + 2 < width - 1 {
                Some((Pos { x: pos.x + 2, y: pos.y }, Pos { x: pos.x + 1, y: pos.y }))
            } else {
                None
            }
        } else if k == 1 {
            if pos.x > 2 {
                Some((Pos { x: pos.x - 2, y: pos.y }, Pos { x: pos.x - 1, y: pos.y }))
            } else {
                None
            }
        } else if k == 2 {
            if pos.y + 2 < height - 1 {
                Some((Pos { x: pos.x, y: pos.y + 2 }, Pos { x: pos.x, y: pos.y + 1 }))
            } else {
                None
            }
        } else {
            if pos.y > 2 {
                Some((Pos { x: pos.x, y: pos.y - 2 }, Pos { x: pos.x, y: pos.y - 1 }))
            } else {
                None
            }
        }
    }

    /// The moves open to the carver at `pos`, each as the target cell and
    /// the wall cell in between.
    pub fn carve_options(&self, pos: Pos, visited: &CellSet) -> (options: Vec<(Pos, Pos)>)
        requires
            self.wf(),
            visited.wf(),
            self@.interior(pos),
        ensures
            options@ == carve_choices(self@, visited@, pos),
    {
        let mut options: Vec<(Pos, Pos)> = Vec::new();
        let mut k: usize = 0;
        while k < 4
            invariant
                self.wf(),
                visited.wf(),
                self@.interior(pos),
                k <= 4,
                options@ == carve_choices_upto(self@, visited@, pos, k as int),
            decreases 4 - k,
        {
            match self.carve_target(pos, k) {
                Some(step) => {
                    if !visited.contains(step.0) {
                        options.push(step);
                    }
                },
                None => {},
            }
            k += 1;
        }
        options
    }

    /// Carves a maze over the lattice of `start`: from the cell on top of the
    /// stack, a random open move is taken and both its wall cell and its
    /// target become `Path`; a cell without open moves is dropped.
    ///
    /// Whatever the random choices, every lattice cell ends up carved and
    /// reachable from `start`, and only interior cells change, to `Path`.
    /// The moves taken are reported in order: they form a spanning tree of
    /// the lattice.
    pub fn generate_from(&mut self, start: Pos) -> (moves: Vec<(Pos, Pos)>)
        requires
            old(self).wf(),
            old(self)@.interior(start),
        ensures
            final(self).wf(),
            final(self)@.same_shape(old(self)@),
            carved_along(old(self)@, start, moves@, final(self)@),
            forall|p: Pos|
                final(self)@.contains(p) ==> #[trigger] final(self)@.at(p) == CellType::Path
                    || final(self)@.at(p) == old(self)@.at(p),
            forall|p: Pos|
                final(self)@.contains(p) && !final(self)@.interior(p) ==> #[trigger] final(self)@.at(p)
                    == old(self)@.at(p),
            forall|p: Pos|
                lattice(final(self)@, start, p) && p != start ==> #[trigger] final(self)@.at(p)
                    == CellType::Path,
            forall|p: Pos|
                lattice(final(self)@, start, p) ==> #[trigger] connected(final(self)@, start, p),
    {
        let (width, height) = self.get_size();
        proof {
            self.lemma_addressable();
            lemma_connected_self(self@, start);
        }
        let mut visited = CellSet::new(width, height);
        visited.insert(start);
        let mut stack: Vec<Pos> = Vec::new();
        stack.push(start);
        let mut moves: Vec<(Pos, Pos)> = Vec::new();
        let ghost mut ranks: Seq<int> = seq![0int];
        proof {
            assert(stack@[0] == start);
            assert forall|p: Pos| #[trigger] visited@.contains(p) implies stack@.contains(p) by {
                assert(stack@[0] == p);
            }
            assert(reach_order(start, moves@) =~= seq![start]);
            assert forall|p: Pos| visited@.contains(p) <==> targets(start, moves@).contains(p) by {
                if p == start {
                    assert(reach_order(start, moves@)[0] == p);
                }
            }
            assert(visited@ =~= targets(start, moves@));
        }
        while stack.len() > 0
            invariant
                self.wf(),
                visited.wf(),
                visited.width() == self@.width,
                visited.height() == self@.height,
                carving(old(self)@, self@, start, visited@, stack@),
                visited@ == targets(start, moves@),
                self@ == carve_replay(old(self)@, moves@),
                forall|j: int|
                    0 <= j < moves@.len() ==> #[trigger] move_ok(old(self)@, start, moves@, j),
                reach_order(start, moves@).no_duplicates(),
                ranks.len() == stack@.len(),
                forall|i: int|
                    0 <= i < ranks.len() ==> 0 <= #[trigger] ranks[i] < moves@.len() + 1
                        && reach_order(start, moves@)[ranks[i]] == stack@[i],
                forall|i: int, m: int| 0 <= i < m < ranks.len() ==> ranks[i] < ranks[m],
            decreases visited.free(), stack.len(),
        {
            let ghost before = stack@;
            let ghost taken = moves@;
            let ghost seen = visited@;
            let ghost g = self@;
            let pos = stack.pop().unwrap();
            assert(pos == before.last());
            assert(seen.contains(pos));
            let options = self.carve_options(pos, &visited);
            proof {
                lemma_carve_choices(g, seen, pos, 4);
            }
            if options.len() > 0 {
                stack.push(pos);
                assert(stack@ =~= before);
                let step = *pick(&options).unwrap();
                let next = step.0;
                let wall = step.1;
                let ghost k = choose|k: int|
                    0 <= k < 4 && #[trigger] carve_ok(g, seen, pos, k) && step == carve_step(
                        pos,
                        k,
                    );
                proof {
                    lemma_carve_push(
                        old(self)@,
                        g,
                        g.put(wall, CellType::Path).put(next, CellType::Path),
                        start,
                        seen,
                        before,
                        k,
                    );
                }
                self.set(wall.x, wall.y, CellType::Path);
                self.set(next.x, next.y, CellType::Path);
                visited.insert(next);
                stack.push(next);
                moves.push(step);
                proof {
                    let now = moves@;
                    let n = taken.len() as int;
                    let order = reach_order(start, taken);
                    let top = ranks.last();
                    lemma_reach_push(start, taken, step);
                    assert(now.drop_last() =~= taken);
                    assert(now.take(n) =~= taken);
                    assert(order[top] == pos);
                    assert(carve_ok(old(self)@, seen, order[top], k));
                    assert forall|m: int| top < m < order.len() implies closed_at(
                        old(self)@,
                        seen,
                        #[trigger] order[m],
                    ) by {
                        assert(order.contains(order[m]));
                        assert(seen.contains(order[m]));
                        if before.contains(order[m]) {
                            let i = choose|i: int| 0 <= i < before.len() && before[i] == order[m];
                            assert(order[ranks[i]] == before[i]);
                            assert(ranks[i] == m);
                            if i < ranks.len() - 1 {
                                assert(ranks[i] < ranks[ranks.len() - 1]);
                            }
                        }
                        assert(closed_at(g, seen, order[m]));
                        assert forall|d: int| 0 <= d < 4 implies !carve_ok(
                            old(self)@,
                            seen,
                            order[m],
                            d,
                        ) by {
                            assert(!carve_ok(g, seen, order[m], d));
                        }
                    }
                    assert(move_ok(old(self)@, start, now, n));
                    let order2 = reach_order(start, now);
                    assert(order2.no_duplicates()) by {
                        assert forall|x: int, y: int|
                            0 <= x < order2.len() && 0 <= y < order2.len() && x != y implies order2[x]
                            != order2[y] by {
                            if x < order.len() && y < order.len() {
                                assert(order[x] != order[y]);
                            } else {
                                let z = if x < order.len() {
                                    x
                                } else {
                                    y
                                };
                                assert(order.contains(order[z]));
                            }
                        }
                    }
                    ranks = ranks.push(order.len() as int);
                    assert forall|i: int| 0 <= i < ranks.len() implies 0 <= #[trigger] ranks[i]
                        < now.len() + 1 && order2[ranks[i]] == stack@[i] by {
                        if i < before.len() {
                            assert(stack@[i] == before[i]);
                        }
                    }
                    assert forall|j: int| 0 <= j < now.len() implies #[trigger] move_ok(
                        old(self)@,
                        start,
                        now,
                        j,
                    ) by {
                        if j < n {
                            assert(move_ok(old(self)@, start, taken, j));
                            assert(now.take(j) =~= taken.take(j));
                            assert(now[j] == taken[j]);
                        }
                    }
                }
            } else {
                proof {
                    assert(closed_at(g, seen, pos));
                    lemma_carve_pop(old(self)@, g, start, seen, before);
                    assert(stack@ =~= before.drop_last());
                    ranks = ranks.drop_last();
                }
            }
        }
        proof {
            let g = self@;
            let seen = visited@;
            assert forall|q: Pos| seen.contains(q) implies #[trigger] closed_at(g, seen, q) by {
                if stack@.contains(q) {
                    let i = choose|i: int| 0 <= i < stack@.len() && stack@[i] == q;
                }
            }
            assert forall|p: Pos| lattice(g, start, p) && p != start implies #[trigger] g.at(p)
                == CellType::Path by {
                lemma_closed_covers(g, start, seen, p);
            }
            assert forall|p: Pos| lattice(g, start, p) implies #[trigger] connected(g, start, p) by {
                lemma_closed_covers(g, start, seen, p);
            }
            assert forall|p: Pos| lattice(old(self)@, start, p) implies #[trigger] targets(
                start,
                moves@,
            ).contains(p) by {
                lemma_closed_covers(g, start, seen, p);
            }
        }
        moves
    }
}

} // verus!
