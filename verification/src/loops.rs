//! The loop injector: opens a bounded number of walls that separate two
//! path cells, so that the carved tree gains cycles.

use crate::cell::CellType;
use crate::grid::{Grid, Maze};
use crate::pos::{row_major_lt, row_major_sorted, Pos};
use crate::random::pick;
use crate::reach::opens_more;
use vstd::prelude::*;

verus! {

/// The neighbour of `p` in direction `k` is a `Path` cell.
pub open spec fn path_toward(g: Grid, p: Pos, k: int) -> bool {
    g.at(p.neighbor(k)) == CellType::Path
}

/// How many of the four neighbours of `p` are `Path` cells.
pub open spec fn path_neighbors(g: Grid, p: Pos) -> int {
    (if path_toward(g, p, 0) { 1int } else { 0 }) + (if path_toward(g, p, 1) { 1int } else { 0 })
        + (if path_toward(g, p, 2) { 1int } else { 0 }) + (if path_toward(g, p, 3) { 1int } else { 0 })
}

/// `p` is an interior wall with exactly two `Path` neighbours, and they
/// face each other: left and right, or up and down.
pub open spec fn loop_candidate(g: Grid, p: Pos) -> bool {
    &&& g.interior(p)
    &&& g.at(p) == CellType::Wall
    &&& path_neighbors(g, p) == 2
    &&& ((path_toward(g, p, 0) && path_toward(g, p, 1)) || (path_toward(g, p, 2) && path_toward(
        g,
        p,
        3,
    )))
}

/// The grid after the walls in `removed` were opened one after the other.
pub open spec fn replay(g: Grid, removed: Seq<Pos>) -> Grid
    decreases removed.len(),
{
    if removed.len() == 0 {
        g
    } else {
        replay(g, removed.drop_last()).put(removed.last(), CellType::Path)
    }
}

/// Each wall in `removed` was a candidate in the grid as it stood when its
/// turn came.
pub open spec fn each_was_candidate(g: Grid, removed: Seq<Pos>) -> bool {
    forall|i: int|
        0 <= i < removed.len() ==> loop_candidate(replay(g, removed.take(i)), #[trigger] removed[i])
}

/// `g` is `carved` after the injector ran: it opened the walls in
/// `removed` one after the other, each a candidate when its turn came, at
/// most one per pass, and fewer than one per pass only where no candidate
/// was left.
pub open spec fn loops_injected(carved: Grid, removed: Seq<Pos>, g: Grid) -> bool {
    &&& g == replay(carved, removed)
    &&& each_was_candidate(carved, removed)
    &&& removed.len() <= (carved.width + carved.height) / 8
    &&& removed.len() < (carved.width + carved.height) / 8 ==> forall|p: Pos|
        !loop_candidate(g, p)
}

/// Opening a candidate wall keeps the grid well formed and closes nothing.
pub proof fn lemma_open_wall(g: Grid, p: Pos)
    requires
        g.wf(),
        g.interior(p),
    ensures
        g.put(p, CellType::Path).wf(),
        g.put(p, CellType::Path).same_shape(g),
        opens_more(g, g.put(p, CellType::Path)),
{
    g.lemma_put(p, CellType::Path);
    let g2 = g.put(p, CellType::Path);
    assert forall|q: Pos| g.open(q) implies #[trigger] g2.open(q) by {
        if q != p {
            assert(g2.at(q) == g.at(q));
        }
    }
}

impl Maze {
    /// Whether the interior cell at column `x`, row `y` is a wall that the
    /// injector may open.
    pub fn is_loop_candidate(&self, x: usize, y: usize) -> (b: bool)
        requires
            self.wf(),
            self@.interior(Pos { x, y }),
        ensures
            b == loop_candidate(self@, Pos { x, y }),
    {
        let ghost p = Pos { x, y };
        assert(p.neighbor(0) == Pos { x: (x + 1) as usize, y });
        assert(p.neighbor(1) == Pos { x: (x - 1) as usize, y });
        assert(p.neighbor(2) == Pos { x, y: (y + 1) as usize });
        assert(p.neighbor(3) == Pos { x, y: (y - 1) as usize });
        if self.get(x, y) != CellType::Wall {
            return false;
        }
        let right = self.get(x + 1, y) == CellType::Path;
        let left = self.get(x - 1, y) == CellType::Path;
        let down = self.get(x, y + 1) == CellType::Path;
        let up = self.get(x, y - 1) == CellType::Path;
        let mut adjacent_paths: u8 = 0;
        if right {
            adjacent_paths += 1;
        }
        if left {
            adjacent_paths += 1;
        }
        if down {
            adjacent_paths += 1;
        }
        if up {
            adjacent_paths += 1;
        }
        adjacent_paths == 2 && ((right && left) || (down && up))
    }

    /// Every wall the injector may open, row by row, left to right.
    pub fn wall_candidates(&self) -> (walls: Vec<Pos>)
        requires
            self.wf(),
        ensures
            forall|i: int| 0 <= i < walls.len() ==> loop_candidate(self@, #[trigger] walls[i]),
            forall|p: Pos| loop_candidate(self@, p) ==> walls@.contains(p),
            row_major_sorted(walls@),
    {
        let (width, height) = self.get_size();
        let mut walls: Vec<Pos> = Vec::new();
        let mut y: usize = 1;
        while y < height - 1
            invariant
                self.wf(),
                width == self@.width,
                height == self@.height,
                1 <= y <= height - 1,
                forall|i: int|
                    0 <= i < walls.len() ==> loop_candidate(self@, #[trigger] walls[i]) && walls[i].y
                        < y,
                forall|p: Pos| loop_candidate(self@, p) && p.y < y ==> walls@.contains(p),
                row_major_sorted(walls@),
            decreases height - y,
        {
            let mut x: usize = 1;
            while x < width - 1
                invariant
                    self.wf(),
                    width == self@.width,
                    height == self@.height,
                    1 <= y < height - 1,
                    1 <= x <= width - 1,
                    forall|i: int|
                        0 <= i < walls.len() ==> loop_candidate(self@, #[trigger] walls[i])
                            && row_major_lt(walls[i], Pos { x, y }),
                    forall|p: Pos|
                        loop_candidate(self@, p) && row_major_lt(p, Pos { x, y })
                            ==> walls@.contains(p),
                    row_major_sorted(walls@),
                decreases width - x,
            {
                let ghost before = walls@;
                if self.is_loop_candidate(x, y) {
                    walls.push(Pos { x, y });
                }
                proof {
                    let here = Pos { x, y };
                    let after = Pos { x: (x + 1) as usize, y };
                    assert forall|p: Pos|
                        loop_candidate(self@, p) && row_major_lt(p, after) implies walls@.contains(
                        p,
                    ) by {
                        if p == here {
                            assert(walls@[walls.len() - 1] == here);
                        } else {
                            assert(row_major_lt(p, here));
                            let i = choose|i: int| 0 <= i < before.len() && before[i] == p;
                            assert(walls@[i] == p);
                        }
                    }
                }
                x += 1;
            }
            proof {
                let after = Pos { x: 0, y: (y + 1) as usize };
                assert forall|p: Pos| loop_candidate(self@, p) && p.y < y + 1 implies walls@.contains(
                    p,
                ) by {
                    assert(row_major_lt(p, Pos { x, y }));
                }
            }
            y += 1;
        }
        walls
    }

    /// One pass of the injector: opens one candidate wall chosen at random,
    /// or leaves the grid as it is when there is none.
    pub fn inject_loop(&mut self) -> (opened: Option<Pos>)
        requires
            old(self).wf(),
        ensures
            final(self).wf(),
            match opened {
                Some(p) => loop_candidate(old(self)@, p) && final(self)@ == old(self)@.put(
                    p,
                    CellType::Path,
                ),
                None => final(self)@ == old(self)@ && forall|p: Pos| !loop_candidate(old(self)@, p),
            },
    {
        let candidates = self.wall_candidates();
        match pick(&candidates) {
            Some(wall) => {
                self.set(wall.x, wall.y, CellType::Path);
                Some(*wall)
            },
            None => {
                assert forall|p: Pos| !loop_candidate(self@, p) by {
                    if loop_candidate(self@, p) {
                        assert(candidates@.contains(p));
                    }
                }
                None
            },
        }
    }

    /// Runs `(width + height) / 8` passes of the injector and reports the
    /// walls it opened, in order.
    ///
    /// Every opened wall was an interior wall between exactly two facing
    /// `Path` cells when it was opened; nothing else changes.
    pub fn inject_loops(&mut self) -> (removed: Vec<Pos>)
        requires
            old(self).wf(),
        ensures
            final(self).wf(),
            loops_injected(old(self)@, removed@, final(self)@),
            final(self)@.same_shape(old(self)@),
            opens_more(old(self)@, final(self)@),
            forall|p: Pos|
                final(self)@.contains(p) ==> #[trigger] final(self)@.at(p) == old(self)@.at(p) || (
                final(self)@.interior(p) && old(self)@.at(p) == CellType::Wall && final(self)@.at(p)
                    == CellType::Path),
    {
        let (width, height) = self.get_size();
        proof {
            self.lemma_addressable();
            assert(width + height <= width * height) by (nonlinear_arith)
                requires
                    width >= 7,
                    height >= 7,
            ;
        }
        let count = (width + height) / 8;
        let mut removed: Vec<Pos> = Vec::new();
        let mut pass: usize = 0;
        while pass < count
            invariant
                self.wf(),
                pass <= count,
                removed.len() <= pass,
                self@ == replay(old(self)@, removed@),
                each_was_candidate(old(self)@, removed@),
                removed.len() < pass ==> forall|p: Pos| !loop_candidate(self@, p),
                self@.same_shape(old(self)@),
                opens_more(old(self)@, self@),
                forall|p: Pos|
                    self@.contains(p) ==> #[trigger] self@.at(p) == old(self)@.at(p) || (
                    self@.interior(p) && old(self)@.at(p) == CellType::Wall && self@.at(p)
                        == CellType::Path),
            decreases count - pass,
        {
            let ghost before = removed@;
            let ghost g = self@;
            match self.inject_loop() {
                Some(wall) => {
                    removed.push(wall);
                    proof {
                        let now = removed@;
                        assert(now.drop_last() =~= before);
                        assert forall|i: int| 0 <= i < now.len() implies loop_candidate(
                            replay(old(self)@, now.take(i)),
                            #[trigger] now[i],
                        ) by {
                            if i < before.len() {
                                assert(now.take(i) =~= before.take(i));
                                assert(now[i] == before[i]);
                            } else {
                                assert(now.take(i) =~= before);
                            }
                        }
                        lemma_open_wall(g, wall);
                        g.lemma_put(wall, CellType::Path);
                        assert forall|p: Pos| old(self)@.open(p) implies #[trigger] self@.open(p) by {
                            assert(g.open(p));
                        }
                        let first = old(self)@;
                        assert forall|p: Pos| self@.contains(p) implies #[trigger] self@.at(p)
                            == first.at(p) || (self@.interior(p) && first.at(p) == CellType::Wall
                            && self@.at(p) == CellType::Path) by {
                            if p != wall {
                                assert(self@.at(p) == g.at(p));
                            }
                        }
                    }
                },
                None => {},
            }
            pass += 1;
        }
        removed
    }
}

} // verus!
