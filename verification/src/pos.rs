//! Grid positions and orthogonal adjacency.

use vstd::prelude::*;

verus! {

/// A cell coordinate: column `x`, row `y`.
#[derive(Clone, Copy, Debug, PartialEq, Eq, Hash, Structural)]
pub struct Pos {
    pub x: usize,
    pub y: usize,
}

/// Column offset of direction `k` (0 right, 1 left, 2 down, 3 up).
pub open spec fn dir_dx(k: int) -> int {
    if k == 0 {
        1
    } else if k == 1 {
        -1
    } else {
        0
    }
}

/// Row offset of direction `k` (0 right, 1 left, 2 down, 3 up).
pub open spec fn dir_dy(k: int) -> int {
    if k == 2 {
        1
    } else if k == 3 {
        -1
    } else {
        0
    }
}

impl Pos {
    /// The cell `dx` columns and `dy` rows away.
    pub open spec fn shift(self, dx: int, dy: int) -> Pos {
        Pos { x: (self.x + dx) as usize, y: (self.y + dy) as usize }
    }

    /// The four orthogonal neighbours, in the order in which every scan of
    /// the library tries them: right, left, down, up.
    pub open spec fn neighbor(self, k: int) -> Pos {
        self.shift(dir_dx(k), dir_dy(k))
    }

    /// The cell two steps away in direction `k`.
    pub open spec fn leap(self, k: int) -> Pos {
        self.shift(2 * dir_dx(k), 2 * dir_dy(k))
    }
}

/// `a` comes before `b` when the grid is read row by row, left to right.
pub open spec fn row_major_lt(a: Pos, b: Pos) -> bool {
    a.y < b.y || (a.y == b.y && a.x < b.x)
}

/// `s` lists positions in strictly increasing row-major order.
pub open spec fn row_major_sorted(s: Seq<Pos>) -> bool {
    forall|i: int, j: int| 0 <= i < j < s.len() ==> row_major_lt(#[trigger] s[i], #[trigger] s[j])
}

/// `a` and `b` share an edge.
pub open spec fn adjacent(a: Pos, b: Pos) -> bool {
    ||| (a.y == b.y && (a.x + 1 == b.x || b.x + 1 == a.x))
    ||| (a.x == b.x && (a.y + 1 == b.y || b.y + 1 == a.y))
}

/// Distinct positions of a `width` x `height` rectangle number at most
/// `width * height`.
pub proof fn lemma_distinct_cells_bounded(s: Seq<Pos>, width: nat, height: nat)
    requires
        s.no_duplicates(),
        forall|i: int| 0 <= i < s.len() ==> (#[trigger] s[i]).x < width && s[i].y < height,
    ensures
        s.len() <= width * height,
{
    let f = Seq::new(s.len(), |i: int| s[i].y * width + s[i].x);
    assert forall|i: int, j: int| 0 <= i < f.len() && 0 <= j < f.len() && i != j implies f[i]
        != f[j] by {
        lemma_flat_index(width as int, height as int, s[i].x as int, s[i].y as int);
        lemma_flat_index(width as int, height as int, s[j].x as int, s[j].y as int);
        if f[i] == f[j] {
            assert(s[i].x == s[j].x && s[i].y == s[j].y);
            assert(s[i] == s[j]);
        }
    }
    f.unique_seq_to_set();
    assert(0 <= width * height) by (nonlinear_arith)
        requires
            width >= 0,
            height >= 0,
    ;
    let range = vstd::set_lib::set_int_range(0, (width * height) as int);
    vstd::set_lib::lemma_int_range(0, (width * height) as int);
    assert forall|v: int| f.to_set().contains(v) implies range.contains(v) by {
        let i = choose|i: int| 0 <= i < f.len() && f[i] == v;
        lemma_flat_index(width as int, height as int, s[i].x as int, s[i].y as int);
    }
    vstd::set_lib::lemma_len_subset(f.to_set(), range);
}

/// Row-major numbering of a `width` x `height` rectangle is one-to-one.
pub proof fn lemma_flat_index(width: int, height: int, x: int, y: int)
    requires
        0 <= x < width,
        0 <= y < height,
    ensures
        0 <= y * width <= y * width + x < width * height,
        (y * width + x) / width == y,
        (y * width + x) % width == x,
{
    assert(y * width + x < width * height) by (nonlinear_arith)
        requires
            0 <= x < width,
            0 <= y < height,
    ;
    assert(0 <= y * width) by (nonlinear_arith)
        requires
            0 <= y,
            0 < width,
    ;
    vstd::arithmetic::div_mod::lemma_fundamental_div_mod_converse(y * width + x, width, y, x);
}

} // verus!
