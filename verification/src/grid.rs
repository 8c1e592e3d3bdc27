//! The maze grid: a fixed-size rectangle of cell labels.

use crate::cell::CellType;
use crate::pos::{lemma_flat_index, Pos};
use vstd::prelude::*;

verus! {

/// The border side on which the exit is opened.
#[derive(Clone, Copy, Debug, PartialEq, Eq, Hash, Structural)]
pub enum ExitLocation {
    Random,
    Left,
    Right,
    Top,
    Bottom,
}

/// A dimension the grid accepts: 7, 11, 15, ...
pub open spec fn valid_dimension(dim: int) -> bool {
    dim >= 7 && (dim - 7) % 4 == 0
}

/// The dimension that a requested `dim` is rounded up to.
pub open spec fn constrained(dim: int) -> int {
    if dim < 7 {
        7
    } else if (dim - 7) % 4 == 0 {
        dim
    } else {
        dim + (4 - (dim - 7) % 4)
    }
}

/// The rounded dimension is accepted and not below the request.
proof fn lemma_constrained_valid(dim: int)
    ensures
        valid_dimension(constrained(dim)),
        constrained(dim) >= dim,
{
    if dim >= 7 {
        let q = (dim - 7) / 4;
        let r = (dim - 7) % 4;
        assert(dim - 7 == 4 * q + r && 0 <= r < 4) by {
            vstd::arithmetic::div_mod::lemma_fundamental_div_mod(dim - 7, 4);
        }
        if r != 0 {
            assert(constrained(dim) - 7 == 4 * (q + 1));
            assert((4 * (q + 1)) % 4 == 0);
        }
    }
}

/// No accepted dimension lies between the request and its rounding.
proof fn lemma_constrained_least(dim: int, d: int)
    requires
        valid_dimension(d),
        d >= dim,
    ensures
        d >= constrained(dim),
{
    if dim >= 7 {
        let q = (dim - 7) / 4;
        let r = (dim - 7) % 4;
        assert(dim - 7 == 4 * q + r && 0 <= r < 4) by {
            vstd::arithmetic::div_mod::lemma_fundamental_div_mod(dim - 7, 4);
        }
        let m = (d - 7) / 4;
        assert(d - 7 == 4 * m) by {
            vstd::arithmetic::div_mod::lemma_fundamental_div_mod(d - 7, 4);
        }
        if r != 0 {
            assert(m >= q + 1);
        }
    }
}

/// Rounding yields the least accepted dimension that is not below the request.
pub proof fn constrained_is_least_valid(dim: int)
    ensures
        valid_dimension(constrained(dim)),
        constrained(dim) >= dim,
        forall|d: int| valid_dimension(d) && d >= dim ==> d >= constrained(dim),
{
    lemma_constrained_valid(dim);
    assert forall|d: int| valid_dimension(d) && d >= dim implies d >= constrained(dim) by {
        lemma_constrained_least(dim, d);
    }
}

/// Rounds a requested dimension up to the nearest accepted one.
pub fn constrain_dimension(dim: usize) -> (r: usize)
    requires
        constrained(dim as int) <= usize::MAX,
    ensures
        r == constrained(dim as int),
{
    if dim < 7 {
        7
    } else {
        let remainder: usize = (dim - 7) % 4;
        if remainder == 0 {
            dim
        } else {
            dim + (4 - remainder)
        }
    }
}

/// The mathematical grid: dimensions, room and exit configuration, and the
/// label of every position inside the rectangle.
pub struct Grid {
    pub width: nat,
    pub height: nat,
    pub room_size: nat,
    pub exit: ExitLocation,
    pub cells: Map<Pos, CellType>,
}

impl Grid {
    /// `p` lies inside the rectangle.
    pub open spec fn contains(self, p: Pos) -> bool {
        p.x < self.width && p.y < self.height
    }

    /// `p` lies inside the rectangle and off its outer border.
    pub open spec fn interior(self, p: Pos) -> bool {
        1 <= p.x && p.x + 1 < self.width && 1 <= p.y && p.y + 1 < self.height
    }

    pub open spec fn wf(self) -> bool {
        &&& valid_dimension(self.width as int)
        &&& valid_dimension(self.height as int)
        &&& self.width <= usize::MAX
        &&& self.height <= usize::MAX
        &&& forall|p: Pos| #[trigger] self.cells.dom().contains(p) <==> self.contains(p)
    }

    /// The label at `p`.
    pub open spec fn at(self, p: Pos) -> CellType {
        self.cells[p]
    }

    /// `p` is inside the rectangle and not a wall.
    pub open spec fn open(self, p: Pos) -> bool {
        self.contains(p) && self.at(p) != CellType::Wall
    }

    /// The grid with the label at `p` replaced by `c`.
    pub open spec fn put(self, p: Pos, c: CellType) -> Grid {
        Grid { cells: self.cells.insert(p, c), ..self }
    }

    /// Relabelling a cell of the rectangle changes that cell only.
    pub proof fn lemma_put(self, p: Pos, c: CellType)
        requires
            self.wf(),
            self.contains(p),
        ensures
            self.put(p, c).wf(),
            self.put(p, c).same_shape(self),
            self.put(p, c).at(p) == c,
            forall|q: Pos| q != p ==> #[trigger] self.put(p, c).at(q) == self.at(q),
    {
        let g2 = self.put(p, c);
        assert forall|q: Pos| #[trigger] g2.cells.dom().contains(q) <==> g2.contains(q) by {
            assert(self.cells.dom().contains(q) <==> self.contains(q));
        }
    }

    /// The centre cell, where carving and every search start.
    pub open spec fn center(self) -> Pos {
        Pos { x: (self.width / 2) as usize, y: (self.height / 2) as usize }
    }

    /// Half the side of the central room, rounded down.
    pub open spec fn room_half(self) -> nat {
        self.room_size / 2
    }

    /// The central room lies inside the rectangle.
    pub open spec fn room_fits(self) -> bool {
        self.room_half() <= self.width / 2 && self.room_half() <= self.height / 2
    }

    /// `p` belongs to the central room.
    pub open spec fn in_room(self, p: Pos) -> bool {
        &&& self.width / 2 - self.room_half() <= p.x <= self.width / 2 + self.room_half()
        &&& self.height / 2 - self.room_half() <= p.y <= self.height / 2 + self.room_half()
    }

    /// The grid with every cell of the central room turned into `Path`.
    pub open spec fn with_room(self) -> Grid {
        Grid {
            cells: Map::new(
                |p: Pos| self.contains(p),
                |p: Pos|
                    if self.in_room(p) {
                        CellType::Path
                    } else {
                        self.cells[p]
                    },
            ),
            ..self
        }
    }

    /// Same rectangle and configuration; labels may differ.
    pub open spec fn same_shape(self, other: Grid) -> bool {
        &&& self.width == other.width
        &&& self.height == other.height
        &&& self.room_size == other.room_size
        &&& self.exit == other.exit
    }

    /// Every cell is a wall.
    pub open spec fn all_walls(self) -> bool {
        forall|p: Pos| self.contains(p) ==> self.at(p) == CellType::Wall
    }
}

/// A maze: the grid together with its room and exit configuration.
#[derive(Clone)]
pub struct Maze {
    width: usize,
    height: usize,
    room_size: usize,
    exit_type: ExitLocation,
    cells: Vec<CellType>,
}

impl View for Maze {
    type V = Grid;

    closed spec fn view(&self) -> Grid {
        Grid {
            width: self.width as nat,
            height: self.height as nat,
            room_size: self.room_size as nat,
            exit: self.exit_type,
            cells: Map::new(
                |p: Pos| p.x < self.width && p.y < self.height,
                |p: Pos| self.cells@[p.y * self.width + p.x],
            ),
        }
    }
}

impl Maze {
    /// The stored labels cover the rectangle, row by row.
    pub closed spec fn storage_ok(&self) -> bool {
        self.cells.len() == self.width * self.height
    }

    pub open spec fn wf(&self) -> bool {
        self@.wf() && self.storage_ok()
    }

    /// The cells of a well-formed maze can be numbered by a `usize`.
    pub proof fn lemma_addressable(&self)
        requires
            self.wf(),
        ensures
            self@.width * self@.height <= usize::MAX,
    {
    }

    /// Whether a grid of the requested size, once rounded, is addressable.
    pub fn dimensions_fit(width: usize, height: usize) -> (b: bool)
        ensures
            b == (constrained(width as int) * constrained(height as int) <= usize::MAX),
    {
        if width > usize::MAX - 3 || height > usize::MAX - 3 {
            assert(constrained(width as int) * constrained(height as int) > usize::MAX)
                by (nonlinear_arith)
                requires
                    constrained(width as int) >= 7,
                    constrained(height as int) >= 7,
                    constrained(width as int) > usize::MAX - 3 || constrained(height as int)
                        > usize::MAX - 3,
                    usize::MAX >= 7,
            ;
            return false;
        }
        let w = constrain_dimension(width);
        let h = constrain_dimension(height);
        w.checked_mul(h).is_some()
    }

    /// An all-wall maze of the rounded dimensions; nothing is carved yet.
    pub fn new(width: usize, height: usize, room_size: usize, exit_type: ExitLocation) -> (m: Maze)
        requires
            constrained(width as int) * constrained(height as int) <= usize::MAX,
        ensures
            m.wf(),
            m@.width == constrained(width as int),
            m@.height == constrained(height as int),
            m@.room_size == room_size,
            m@.exit == exit_type,
            m@.all_walls(),
    {
        proof {
            constrained_is_least_valid(width as int);
            constrained_is_least_valid(height as int);
            assert(constrained(width as int) <= usize::MAX && constrained(height as int)
                <= usize::MAX) by (nonlinear_arith)
                requires
                    constrained(width as int) * constrained(height as int) <= usize::MAX,
                    constrained(width as int) >= 7,
                    constrained(height as int) >= 7,
            ;
        }
        let width = constrain_dimension(width);
        let height = constrain_dimension(height);
        let cells = vec![CellType::Wall; width * height];
        let m = Maze { width, height, room_size, exit_type, cells };
        proof {
            assert forall|p: Pos| m@.contains(p) implies m@.at(p) == CellType::Wall by {
                lemma_flat_index(width as int, height as int, p.x as int, p.y as int);
            }
        }
        m
    }

    pub fn get_size(&self) -> (size: (usize, usize))
        ensures
            size.0 == self@.width,
            size.1 == self@.height,
    {
        (self.width, self.height)
    }

    pub fn room_size(&self) -> (r: usize)
        ensures
            r == self@.room_size,
    {
        self.room_size
    }

    pub fn exit_type(&self) -> (e: ExitLocation)
        ensures
            e == self@.exit,
    {
        self.exit_type
    }

    /// The label at column `x`, row `y`.
    pub fn get(&self, x: usize, y: usize) -> (c: CellType)
        requires
            self.wf(),
            x < self@.width,
            y < self@.height,
        ensures
            c == self@.at(Pos { x, y }),
    {
        proof {
            lemma_flat_index(self.width as int, self.height as int, x as int, y as int);
        }
        self.cells[y * self.width + x]
    }

    /// Overwrites the label at column `x`, row `y`; no other cell changes.
    pub fn set(&mut self, x: usize, y: usize, value: CellType)
        requires
            old(self).wf(),
            x < old(self)@.width,
            y < old(self)@.height,
        ensures
            final(self).wf(),
            final(self)@ == old(self)@.put(Pos { x, y }, value),
    {
        proof {
            lemma_flat_index(self.width as int, self.height as int, x as int, y as int);
        }
        let i = y * self.width + x;
        self.cells.set(i, value);
        proof {
            let w = self.width as int;
            let target = old(self)@.put(Pos { x, y }, value);
            assert forall|p: Pos| #[trigger] self@.cells.dom().contains(p) implies self@.cells[p]
                == target.cells[p] by {
                lemma_flat_index(w, self.height as int, p.x as int, p.y as int);
            }
            assert(self@.cells.dom() =~= target.cells.dom());
            assert(self@.cells =~= old(self)@.put(Pos { x, y }, value).cells);
        }
    }
}

} // verus!
