//! Maze generation: the central room, the carver, the exit and the loop
//! injector, in that order.

use crate::carve::{carve_replay, carved_along, lattice};
use crate::cell::CellType;
use crate::grid::{ExitLocation, Grid, Maze};
use crate::pos::{adjacent, Pos};
use crate::random::random_index;
use crate::loops::loops_injected;
use crate::reach::{connected, lemma_connected_step, lemma_connected_survives, opens_more};
use vstd::prelude::*;

verus! {

/// The border cell in the middle of side `i`: 0 left, 1 right, 2 top,
/// 3 bottom.
pub open spec fn exit_cell(g: Grid, i: int) -> Pos {
    if i == 0 {
        Pos { x: 0, y: (g.height / 2) as usize }
    } else if i == 1 {
        Pos { x: (g.width - 1) as usize, y: (g.height / 2) as usize }
    } else if i == 2 {
        Pos { x: (g.width / 2) as usize, y: 0 }
    } else {
        Pos { x: (g.width / 2) as usize, y: (g.height - 1) as usize }
    }
}

/// The sides on which a maze configured with `exit` may open its exit.
pub open spec fn exit_allowed(exit: ExitLocation, i: int) -> bool {
    match exit {
        ExitLocation::Random => 0 <= i < 4,
        ExitLocation::Left => i == 0,
        ExitLocation::Right => i == 1,
        ExitLocation::Top => i == 2,
        ExitLocation::Bottom => i == 3,
    }
}

/// What holds of a grid `g` generated from `g0` with its exit at `e`:
/// the exit is labelled, the room and every lattice cell are carved, the
/// centre reaches the exit and every lattice cell, and apart from the exit
/// cells have only been turned into `Path`.
pub open spec fn generated(g0: Grid, g: Grid, e: Pos) -> bool {
    &&& g.wf()
    &&& g.same_shape(g0)
    &&& g.contains(e)
    &&& !g.interior(e)
    &&& g.at(e) == CellType::Exit
    &&& forall|p: Pos|
        g.contains(p) && g.in_room(p) && p != e ==> #[trigger] g.at(p) == CellType::Path
    &&& forall|p: Pos| lattice(g, g.center(), p) ==> #[trigger] g.at(p) == CellType::Path
    &&& forall|p: Pos| lattice(g, g.center(), p) ==> #[trigger] connected(g, g.center(), p)
    &&& connected(g, g.center(), e)
    &&& forall|p: Pos|
        g.contains(p) && p != e ==> #[trigger] g.at(p) == CellType::Path || g.at(p) == g0.at(p)
    &&& forall|p: Pos|
        g.contains(p) && !g.interior(p) && !g.in_room(p) && p != e ==> #[trigger] g.at(p)
            == g0.at(p)
}

/// `g` was made from `g0` with its exit in the middle of side `i`: the
/// room was carved, the carver took the moves in `moves` from the centre,
/// and the exit was labelled, which left `carved`, already a generated
/// maze; then the loop injector opened the walls in `removed` to arrive
/// at `g`.
pub open spec fn made(
    g0: Grid,
    moves: Seq<(Pos, Pos)>,
    carved: Grid,
    removed: Seq<Pos>,
    g: Grid,
    i: int,
) -> bool {
    &&& carved_along(g0.with_room(), g0.center(), moves, carve_replay(g0.with_room(), moves))
    &&& carved == carve_replay(g0.with_room(), moves).put(exit_cell(g0, i), CellType::Exit)
    &&& generated(g0, carved, exit_cell(g0, i))
    &&& loops_injected(carved, removed, g)
    &&& generated(g0, g, exit_cell(g0, i))
}

/// Opening interior walls of a generated maze leaves it a generated maze.
pub proof fn lemma_loops_keep_generated(g0: Grid, carved: Grid, g: Grid, e: Pos)
    requires
        generated(g0, carved, e),
        g.wf(),
        g.same_shape(carved),
        opens_more(carved, g),
        forall|p: Pos|
            g.contains(p) ==> #[trigger] g.at(p) == carved.at(p) || (g.interior(p) && carved.at(p)
                == CellType::Wall && g.at(p) == CellType::Path),
    ensures
        generated(g0, g, e),
{
    assert(g.at(e) == carved.at(e));
    assert forall|p: Pos| g.contains(p) && g.in_room(p) && p != e implies #[trigger] g.at(p)
        == CellType::Path by {
        assert(carved.at(p) == CellType::Path);
    }
    assert forall|p: Pos| lattice(g, g.center(), p) implies #[trigger] g.at(p)
        == CellType::Path by {
        assert(carved.at(p) == CellType::Path);
    }
    assert forall|p: Pos| lattice(g, g.center(), p) implies #[trigger] connected(
        g,
        g.center(),
        p,
    ) by {
        assert(connected(carved, carved.center(), p));
        lemma_connected_survives(carved, g, g.center(), p);
    }
    lemma_connected_survives(carved, g, g.center(), e);
    assert forall|p: Pos| g.contains(p) && p != e implies #[trigger] g.at(p) == CellType::Path
        || g.at(p) == g0.at(p) by {
        assert(carved.at(p) == CellType::Path || carved.at(p) == g0.at(p));
    }
    assert forall|p: Pos|
        g.contains(p) && !g.interior(p) && !g.in_room(p) && p != e implies #[trigger] g.at(p)
            == g0.at(p) by {
        assert(carved.at(p) == g0.at(p));
    }
}

/// An accepted dimension is odd, and so is its half.
pub proof fn lemma_odd_center(d: int)
    requires
        crate::grid::valid_dimension(d),
    ensures
        d == 2 * (d / 2) + 1,
        (d / 2) % 2 == 1,
        (d - 2) % 2 == 1,
        d / 2 >= 3,
{
    let j = (d - 7) / 4;
    assert(d - 7 == 4 * j) by {
        vstd::arithmetic::div_mod::lemma_fundamental_div_mod(d - 7, 4);
    }
    assert(d == 4 * j + 7);
    assert(d / 2 == 2 * j + 3);
}

/// The centre of a well-formed grid is an interior cell with odd
/// coordinates, and the cell next to each candidate exit lies on its lattice.
pub proof fn lemma_exit_meets_lattice(g: Grid, i: int)
    requires
        g.wf(),
        0 <= i < 4,
    ensures
        g.interior(g.center()),
        g.width == 2 * (g.width / 2) + 1,
        g.height == 2 * (g.height / 2) + 1,
        g.contains(exit_cell(g, i)),
        !g.interior(exit_cell(g, i)),
        exists|n: Pos| lattice(g, g.center(), n) && adjacent(n, exit_cell(g, i)),
{
    let w = g.width as int;
    let h = g.height as int;
    lemma_odd_center(w);
    lemma_odd_center(h);
    let cx = w / 2;
    let cy = h / 2;
    let c = g.center();
    assert(c.x == cx && c.y == cy);
    let e = exit_cell(g, i);
    if i == 0 {
        let n = Pos { x: 1, y: cy as usize };
        assert(lattice(g, c, n) && adjacent(n, e));
    } else if i == 1 {
        let n = Pos { x: (w - 2) as usize, y: cy as usize };
        assert(lattice(g, c, n) && adjacent(n, e));
    } else if i == 2 {
        let n = Pos { x: cx as usize, y: 1 };
        assert(lattice(g, c, n) && adjacent(n, e));
    } else {
        let n = Pos { x: cx as usize, y: (h - 2) as usize };
        assert(lattice(g, c, n) && adjacent(n, e));
    }
}

/// A maze generated from an all-wall grid holds exactly one `Exit` cell,
/// and besides it only walls and paths.
pub proof fn lemma_single_exit(g0: Grid, g: Grid, e: Pos, p: Pos)
    requires
        g0.all_walls(),
        generated(g0, g, e),
        g.contains(p),
    ensures
        g.at(p) == CellType::Exit <==> p == e,
        p != e ==> g.at(p) == CellType::Wall || g.at(p) == CellType::Path,
{
    if p != e {
        assert(g.at(p) == CellType::Path || g.at(p) == g0.at(p));
        assert(g0.contains(p));
    }
}

impl Maze {
    /// The centre cell.
    pub fn center(&self) -> (c: Pos)
        ensures
            c == self@.center(),
    {
        let (width, height) = self.get_size();
        Pos { x: width / 2, y: height / 2 }
    }

    /// Whether the central room lies inside the grid.
    pub fn room_fits(&self) -> (b: bool)
        ensures
            b == self@.room_fits(),
    {
        let (width, height) = self.get_size();
        let half = self.room_size() / 2;
        half <= width / 2 && half <= height / 2
    }

    /// Turns every cell of the central room into `Path`.
    pub fn carve_room(&mut self)
        requires
            old(self).wf(),
            old(self)@.room_fits(),
        ensures
            final(self).wf(),
            final(self)@ == old(self)@.with_room(),
    {
        let (width, height) = self.get_size();
        let half = self.room_size() / 2;
        proof {
            lemma_exit_meets_lattice(self@, 0);
        }
        let x0 = width / 2 - half;
        let x1 = width / 2 + half;
        let y0 = height / 2 - half;
        let y1 = height / 2 + half;
        let mut y = y0;
        while y <= y1
            invariant
                self.wf(),
                self@.same_shape(old(self)@),
                width == self@.width,
                height == self@.height,
                half == self@.room_half(),
                x0 == width / 2 - half,
                x1 == width / 2 + half,
                y0 == height / 2 - half,
                y1 == height / 2 + half,
                x1 < width,
                y1 < height,
                y0 <= y <= y1 + 1,
                forall|p: Pos|
                    self@.contains(p) ==> #[trigger] self@.at(p) == (if self@.in_room(p) && p.y
                        < y {
                        CellType::Path
                    } else {
                        old(self)@.at(p)
                    }),
            decreases y1 + 1 - y,
        {
            let mut x = x0;
            while x <= x1
                invariant
                    self.wf(),
                    self@.same_shape(old(self)@),
                    width == self@.width,
                    height == self@.height,
                    half == self@.room_half(),
                    x0 == width / 2 - half,
                    x1 == width / 2 + half,
                    y0 == height / 2 - half,
                    y1 == height / 2 + half,
                    x1 < width,
                    y1 < height,
                    y0 <= y <= y1,
                    x0 <= x <= x1 + 1,
                    forall|p: Pos|
                        self@.contains(p) ==> #[trigger] self@.at(p) == (if self@.in_room(p) && (p.y
                            < y || (p.y == y && p.x < x)) {
                            CellType::Path
                        } else {
                            old(self)@.at(p)
                        }),
                decreases x1 + 1 - x,
            {
                let ghost g = self@;
                proof {
                    g.lemma_put(Pos { x, y }, CellType::Path);
                }
                self.set(x, y, CellType::Path);
                x += 1;
            }
            y += 1;
        }
        proof {
            let target = old(self)@.with_room();
            assert forall|p: Pos| #[trigger] self@.cells.dom().contains(p) implies self@.cells[p]
                == target.cells[p] by {
                assert(self@.contains(p));
                assert(self@.at(p) == (if self@.in_room(p) && p.y < y {
                    CellType::Path
                } else {
                    old(self)@.at(p)
                }));
            }
            assert(self@.cells.dom() =~= target.cells.dom());
            assert(self@.cells =~= target.cells);
        }
    }

    /// The border cell in the middle of side `i`.
    fn exit_candidate(&self, i: usize) -> (e: Pos)
        requires
            self.wf(),
            i < 4,
        ensures
            e == exit_cell(self@, i as int),
    {
        let (width, height) = self.get_size();
        if i == 0 {
            Pos { x: 0, y: height / 2 }
        } else if i == 1 {
            Pos { x: width - 1, y: height / 2 }
        } else if i == 2 {
            Pos { x: width / 2, y: 0 }
        } else {
            Pos { x: width / 2, y: height - 1 }
        }
    }

    /// The cell where the exit is opened: the middle of the configured side,
    /// or of a side drawn at random when none is configured.
    fn choose_exit(&self) -> (e: Pos)
        requires
            self.wf(),
        ensures
            exists|i: int| exit_allowed(self@.exit, i) && 0 <= i < 4 && e == exit_cell(self@, i),
    {
        let i = match self.exit_type() {
            ExitLocation::Left => 0,
            ExitLocation::Right => 1,
            ExitLocation::Top => 2,
            ExitLocation::Bottom => 3,
            ExitLocation::Random => random_index(4),
        };
        assert(exit_allowed(self@.exit, i as int));
        self.exit_candidate(i)
    }

    /// Generates the maze in place: carves the central room, carves the
    /// lattice from the centre, labels the exit, then injects loops.
    ///
    /// Whatever the random choices, the exit sits in the middle of an
    /// allowed side, the carver's moves span the lattice, `generated` holds
    /// of the maze before and after loop injection, and the injector has
    /// opened candidate walls only.
    pub fn generate(&mut self)
        requires
            old(self).wf(),
            old(self)@.room_fits(),
        ensures
            final(self).wf(),
            exists|i: int, moves: Seq<(Pos, Pos)>, carved: Grid, removed: Seq<Pos>|
                0 <= i < 4 && exit_allowed(old(self)@.exit, i) && #[trigger] made(
                    old(self)@,
                    moves,
                    carved,
                    removed,
                    final(self)@,
                    i,
                ),
    {
        let ghost g0 = self@;
        self.carve_room();
        let ghost g1 = self@;
        let start = self.center();
        proof {
            lemma_exit_meets_lattice(g1, 0);
            assert forall|p: Pos| g1.contains(p) implies #[trigger] g1.at(p) == (if g1.in_room(p) {
                CellType::Path
            } else {
                g0.at(p)
            }) by {}
        }
        let moves = self.generate_from(start);
        let ghost g2 = self@;
        let exit_pos = self.choose_exit();
        let ghost i = choose|i: int|
            exit_allowed(g2.exit, i) && 0 <= i < 4 && exit_pos == exit_cell(g2, i);
        proof {
            lemma_exit_meets_lattice(g2, i);
            g2.lemma_put(exit_pos, CellType::Exit);
        }
        self.set(exit_pos.x, exit_pos.y, CellType::Exit);
        let ghost g3 = self@;
        proof {
            let e = exit_pos;
            assert(exit_cell(g0, i) == e);
            assert(g3.at(e) == CellType::Exit);
            assert(opens_more(g2, g3)) by {
                assert forall|p: Pos| g2.open(p) implies #[trigger] g3.open(p) by {
                    if p != e {
                        assert(g3.at(p) == g2.at(p));
                    }
                }
            }
            assert forall|p: Pos| g3.contains(p) && g3.in_room(p) && p != e implies #[trigger] g3.at(
                p,
            ) == CellType::Path by {
                assert(g1.at(p) == CellType::Path);
                assert(g2.at(p) == CellType::Path || g2.at(p) == g1.at(p));
                assert(g3.at(p) == g2.at(p));
            }
            assert forall|p: Pos| lattice(g3, g3.center(), p) implies #[trigger] g3.at(p)
                == CellType::Path by {
                assert(g3.at(p) == g2.at(p));
                if p == start {
                    assert(g1.in_room(p));
                    assert(g1.at(p) == CellType::Path);
                    assert(g2.at(p) == CellType::Path || g2.at(p) == g1.at(p));
                } else {
                    assert(lattice(g2, start, p));
                }
            }
            assert forall|p: Pos| lattice(g3, g3.center(), p) implies #[trigger] connected(
                g3,
                g3.center(),
                p,
            ) by {
                assert(lattice(g2, start, p));
                assert(connected(g2, start, p));
                lemma_connected_survives(g2, g3, start, p);
            }
            let n = choose|n: Pos| lattice(g2, g2.center(), n) && adjacent(n, e);
            assert(lattice(g3, g3.center(), n));
            assert(connected(g3, g3.center(), n));
            lemma_connected_step(g3, g3.center(), n, e);
            assert forall|p: Pos| g3.contains(p) && p != e implies #[trigger] g3.at(p)
                == CellType::Path || g3.at(p) == g0.at(p) by {
                assert(g1.at(p) == CellType::Path || g1.at(p) == g0.at(p));
                assert(g2.at(p) == CellType::Path || g2.at(p) == g1.at(p));
                assert(g3.at(p) == g2.at(p));
            }
            assert forall|p: Pos|
                g3.contains(p) && !g3.interior(p) && !g3.in_room(p) && p != e implies #[trigger] g3.at(
                p,
            ) == g0.at(p) by {
                assert(g1.at(p) == g0.at(p));
                assert(g2.at(p) == g1.at(p));
                assert(g3.at(p) == g2.at(p));
            }
            assert(generated(g0, g3, e));
        }
        let removed = self.inject_loops();
        proof {
            lemma_loops_keep_generated(g0, g3, self@, exit_pos);
            assert(made(g0, moves@, g3, removed@, self@, i));
        }
    }
}

} // verus!
