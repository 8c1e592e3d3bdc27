//! The artifact placer: rewards and dangers on path cells outside the
//! central room, never two of them side by side.

use crate::cell::{dangers, rewards, CellType};
use crate::graph_build::step_inside;
use crate::grid::{Grid, Maze};
use crate::mask::CellSet;
use crate::pos::{adjacent, lemma_flat_index, row_major_lt, row_major_sorted, Pos};
use crate::random::{pick, shuffle};
use crate::route::lemma_adjacent_is_neighbor;
use vstd::prelude::*;

verus! {

/// The cell with row-major number `i`.
pub open spec fn cell_of(g: Grid, i: int) -> Pos {
    Pos { x: (i % g.width as int) as usize, y: (i / g.width as int) as usize }
}

/// How many of the first `n` cells, counted row by row, are `Path` cells.
pub open spec fn path_count_upto(g: Grid, n: nat) -> nat
    decreases n,
{
    if n == 0 {
        0
    } else {
        path_count_upto(g, (n - 1) as nat) + if g.at(cell_of(g, n - 1)) == CellType::Path {
            1nat
        } else {
            0nat
        }
    }
}

/// How many cells of the grid are `Path` cells.
pub open spec fn path_count(g: Grid) -> nat {
    path_count_upto(g, g.width * g.height)
}

/// Of `count` artifacts, the rewards: two fifths, rounded down.
pub open spec fn reward_share(count: int) -> int {
    (2 * count) / 5
}

/// `p` may receive an artifact: a `Path` cell outside the central room.
pub open spec fn artifact_site(g: Grid, p: Pos) -> bool {
    g.contains(p) && g.at(p) == CellType::Path && !g.in_room(p)
}

/// `order` lists every artifact site of `g` once.
pub open spec fn is_site_order(g: Grid, order: Seq<Pos>) -> bool {
    order.no_duplicates() && forall|p: Pos| order.contains(p) <==> artifact_site(g, p)
}

/// `p` holds a placement or lies next to one.
pub open spec fn blocked(placed: Seq<Pos>, p: Pos) -> bool {
    exists|i: int| 0 <= i < placed.len() && (#[trigger] placed[i] == p || adjacent(placed[i], p))
}

/// The placements after walking through `order`: a position receives a
/// placement unless it is blocked, until `limit` have been made here.
/// `placed` holds the placements made so far, `picked` how many of them
/// count against `limit`.
pub open spec fn greedy(order: Seq<Pos>, limit: nat, placed: Seq<Pos>, picked: nat) -> Seq<Pos>
    decreases order.len(),
{
    if order.len() == 0 || picked >= limit {
        placed
    } else if blocked(placed, order[0]) {
        greedy(order.drop_first(), limit, placed, picked)
    } else {
        greedy(order.drop_first(), limit, placed.push(order[0]), picked + 1)
    }
}

/// No two placements coincide or share an edge.
pub open spec fn spread(placed: Seq<Pos>) -> bool {
    forall|i: int, j: int|
        0 <= i < placed.len() && 0 <= j < placed.len() && i != j ==> #[trigger] placed[i]
            != #[trigger] placed[j] && !adjacent(placed[i], placed[j])
}

/// `g` is `g0` with a reward at every position of `rewards_at`, a danger at
/// every position of `dangers_at`, and nothing else changed.
pub open spec fn decorated(g0: Grid, g: Grid, rewards_at: Seq<Pos>, dangers_at: Seq<Pos>) -> bool {
    &&& g.same_shape(g0)
    &&& forall|p: Pos|
        g.contains(p) ==> (if rewards_at.contains(p) {
            (#[trigger] g.at(p)).reward()
        } else if dangers_at.contains(p) {
            g.at(p).danger()
        } else {
            g.at(p) == g0.at(p)
        })
}

/// `g` is `g0` after `count` artifacts were placed along `order`: the
/// rewards went greedily to the first unblocked sites, up to two fifths of
/// `count`, and the dangers likewise to the sites still unblocked, up to
/// the rest of `count`.
pub open spec fn placed_along(
    g0: Grid,
    g: Grid,
    count: nat,
    order: Seq<Pos>,
    rewards_at: Seq<Pos>,
    dangers_at: Seq<Pos>,
) -> bool {
    &&& rewards_at == greedy(order, reward_share(count as int) as nat, Seq::empty(), 0)
    &&& rewards_at + dangers_at == greedy(
        order,
        (count - reward_share(count as int)) as nat,
        rewards_at,
        0,
    )
    &&& decorated(g0, g, rewards_at, dangers_at)
}

/// `g` is `g0` after `count` artifacts were asked for: they were placed
/// along some order of the artifact sites of `g0`.
pub open spec fn artifacts_placed(g0: Grid, g: Grid, count: nat) -> bool {
    exists|order: Seq<Pos>, rewards_at: Seq<Pos>, dangers_at: Seq<Pos>|
        is_site_order(g0, order) && #[trigger] placed_along(
            g0,
            g,
            count,
            order,
            rewards_at,
            dangers_at,
        )
}

/// After one more placement at `pos`, the blocked positions are those
/// blocked before, `pos` itself, and the positions next to `pos`.
pub proof fn lemma_blocked_push(placed: Seq<Pos>, pos: Pos, p: Pos)
    ensures
        blocked(placed.push(pos), p) <==> blocked(placed, p) || pos == p || adjacent(pos, p),
{
    let more = placed.push(pos);
    if blocked(placed, p) {
        let j = choose|j: int|
            0 <= j < placed.len() && (#[trigger] placed[j] == p || adjacent(placed[j], p));
        assert(more[j] == placed[j]);
        assert(more[j] == p || adjacent(more[j], p));
    }
    if pos == p || adjacent(pos, p) {
        assert(more[more.len() - 1] == pos);
        assert(more[more.len() - 1] == p || adjacent(more[more.len() - 1], p));
    }
    if blocked(more, p) {
        let j = choose|j: int|
            0 <= j < more.len() && (#[trigger] more[j] == p || adjacent(more[j], p));
        if j < placed.len() {
            assert(placed[j] == more[j]);
            assert(placed[j] == p || adjacent(placed[j], p));
        }
    }
}

/// The greedy walk only adds placements, takes them from `order`, makes at
/// most `limit` new ones, and keeps them spread.
pub proof fn lemma_greedy(order: Seq<Pos>, limit: nat, placed: Seq<Pos>, picked: nat)
    requires
        spread(placed),
        picked <= limit,
    ensures
        ({
            let all = greedy(order, limit, placed, picked);
            &&& spread(all)
            &&& all.len() >= placed.len()
            &&& all.take(placed.len() as int) == placed
            &&& all.len() - placed.len() + picked <= limit
            &&& forall|i: int|
                placed.len() <= i < all.len() ==> order.contains(#[trigger] all[i])
                    && !placed.contains(all[i])
        }),
    decreases order.len(),
{
    let all = greedy(order, limit, placed, picked);
    if order.len() == 0 || picked >= limit {
        assert(all.take(placed.len() as int) =~= placed);
    } else {
        let rest = order.drop_first();
        if blocked(placed, order[0]) {
            lemma_greedy(rest, limit, placed, picked);
            assert forall|i: int| placed.len() <= i < all.len() implies order.contains(
                #[trigger] all[i],
            ) by {
                let j = choose|j: int| 0 <= j < rest.len() && rest[j] == all[i];
                assert(order[j + 1] == all[i]);
            }
        } else {
            let more = placed.push(order[0]);
            assert forall|i: int, j: int|
                0 <= i < more.len() && 0 <= j < more.len() && i != j implies #[trigger] more[i]
                != #[trigger] more[j] && !adjacent(more[i], more[j]) by {
                if i < placed.len() && j < placed.len() {
                } else if i < placed.len() {
                    assert(placed[i] == more[i]);
                    assert(!(placed[i] == order[0] || adjacent(placed[i], order[0])));
                } else {
                    assert(placed[j] == more[j]);
                    assert(!(placed[j] == order[0] || adjacent(placed[j], order[0])));
                }
            }
            lemma_greedy(rest, limit, more, picked + 1);
            assert(all.take(placed.len() as int) =~= all.take(more.len() as int).take(
                placed.len() as int,
            ));
            assert(more.take(placed.len() as int) =~= placed);
            assert forall|i: int| placed.len() <= i < all.len() implies order.contains(
                #[trigger] all[i],
            ) && !placed.contains(all[i]) by {
                if i == placed.len() {
                    assert(all.take(more.len() as int)[i] == more[i]);
                    assert(all[i] == order[0]);
                    if placed.contains(all[i]) {
                        let j = choose|j: int| 0 <= j < placed.len() && placed[j] == all[i];
                        assert(placed[j] == order[0] || adjacent(placed[j], order[0]));
                    }
                } else {
                    let j = choose|j: int| 0 <= j < rest.len() && rest[j] == all[i];
                    assert(order[j + 1] == all[i]);
                    if placed.contains(all[i]) {
                        let j = choose|j: int| 0 <= j < placed.len() && placed[j] == all[i];
                        assert(more[j] == all[i]);
                    }
                }
            }
        }
    }
}

/// No two artifacts placed by one call lie side by side: of two cells that
/// share an edge, at most one has changed.
pub proof fn lemma_artifacts_apart(g0: Grid, g: Grid, count: nat, p: Pos, q: Pos)
    requires
        artifacts_placed(g0, g, count),
        g.contains(p),
        g.contains(q),
        adjacent(p, q),
    ensures
        g.at(p) == g0.at(p) || g.at(q) == g0.at(q),
{
    let (order, rewards_at, dangers_at) = choose|
        order: Seq<Pos>,
        rewards_at: Seq<Pos>,
        dangers_at: Seq<Pos>,
    |
        is_site_order(g0, order) && #[trigger] placed_along(
            g0,
            g,
            count,
            order,
            rewards_at,
            dangers_at,
        );
    let all = rewards_at + dangers_at;
    lemma_greedy(order, reward_share(count as int) as nat, Seq::empty(), 0);
    lemma_greedy(order, (count - reward_share(count as int)) as nat, rewards_at, 0);
    if g.at(p) != g0.at(p) && g.at(q) != g0.at(q) {
        assert(rewards_at.contains(p) || dangers_at.contains(p));
        assert(rewards_at.contains(q) || dangers_at.contains(q));
        let i = if rewards_at.contains(p) {
            choose|i: int| 0 <= i < rewards_at.len() && rewards_at[i] == p
        } else {
            rewards_at.len() + choose|i: int| 0 <= i < dangers_at.len() && dangers_at[i] == p
        };
        let j = if rewards_at.contains(q) {
            choose|j: int| 0 <= j < rewards_at.len() && rewards_at[j] == q
        } else {
            rewards_at.len() + choose|j: int| 0 <= j < dangers_at.len() && dangers_at[j] == q
        };
        assert(all[i] == p);
        assert(all[j] == q);
    }
}

/// Only `Path` cells outside the room change, and only into artifacts; at
/// most two fifths of `count` become rewards and at most `count` change.
pub proof fn lemma_artifacts_on_sites(g0: Grid, g: Grid, count: nat, p: Pos)
    requires
        artifacts_placed(g0, g, count),
        g.contains(p),
        g.at(p) != g0.at(p),
    ensures
        artifact_site(g0, p),
        g.at(p).artifact(),
        count > 0,
{
    let (order, rewards_at, dangers_at) = choose|
        order: Seq<Pos>,
        rewards_at: Seq<Pos>,
        dangers_at: Seq<Pos>,
    |
        is_site_order(g0, order) && #[trigger] placed_along(
            g0,
            g,
            count,
            order,
            rewards_at,
            dangers_at,
        );
    let all = rewards_at + dangers_at;
    lemma_greedy(order, reward_share(count as int) as nat, Seq::empty(), 0);
    lemma_greedy(order, (count - reward_share(count as int)) as nat, rewards_at, 0);
    assert(rewards_at.contains(p) || dangers_at.contains(p));
    if rewards_at.contains(p) {
        let i = choose|i: int| 0 <= i < rewards_at.len() && rewards_at[i] == p;
        assert(order.contains(rewards_at[i]));
    } else {
        let i = choose|i: int| 0 <= i < dangers_at.len() && dangers_at[i] == p;
        assert(all[rewards_at.len() + i] == p);
        assert(order.contains(all[rewards_at.len() + i]));
    }
}

/// Asking for no artifact leaves the grid as it was.
pub proof fn lemma_no_artifacts(g0: Grid, g: Grid)
    requires
        g0.wf(),
        g.wf(),
        artifacts_placed(g0, g, 0),
    ensures
        g == g0,
{
    let (order, rewards_at, dangers_at) = choose|
        order: Seq<Pos>,
        rewards_at: Seq<Pos>,
        dangers_at: Seq<Pos>,
    |
        is_site_order(g0, order) && #[trigger] placed_along(
            g0,
            g,
            0,
            order,
            rewards_at,
            dangers_at,
        );
    assert forall|p: Pos| #[trigger] g.cells.dom().contains(p) implies g.cells[p] == g0.cells[p] by {
        if g.at(p) != g0.at(p) {
            lemma_artifacts_on_sites(g0, g, 0, p);
        }
    }
    assert(g.cells.dom() =~= g0.cells.dom());
    assert(g.cells =~= g0.cells);
}

impl Maze {
    /// How many cells of the grid are `Path` cells.
    pub fn path_cell_count(&self) -> (n: usize)
        requires
            self.wf(),
        ensures
            n == path_count(self@),
    {
        let (width, height) = self.get_size();
        proof {
            self.lemma_addressable();
        }
        let mut n: usize = 0;
        let mut y: usize = 0;
        while y < height
            invariant
                self.wf(),
                width == self@.width,
                height == self@.height,
                width * height <= usize::MAX,
                y <= height,
                n == path_count_upto(self@, (y * width) as nat),
                n <= y * width,
            decreases height - y,
        {
            let mut x: usize = 0;
            proof {
                assert(y * width + width <= width * height) by (nonlinear_arith)
                    requires
                        y < height,
                        width >= 0,
                ;
                assert(0 <= y * width) by (nonlinear_arith)
                    requires
                        y >= 0,
                        width >= 0,
                ;
            }
            while x < width
                invariant
                    self.wf(),
                    width == self@.width,
                    height == self@.height,
                    width * height <= usize::MAX,
                    y < height,
                    x <= width,
                    0 <= y * width,
                    y * width + width <= width * height,
                    n == path_count_upto(self@, (y * width + x) as nat),
                    n <= y * width + x,
                decreases width - x,
            {
                proof {
                    lemma_flat_index(width as int, height as int, x as int, y as int);
                    assert(cell_of(self@, y * width + x) == Pos { x, y });
                }
                if self.get(x, y) == CellType::Path {
                    n += 1;
                }
                x += 1;
            }
            proof {
                assert((y + 1) * width == y * width + width) by (nonlinear_arith);
            }
            y += 1;
        }
        proof {
            assert(height * width == width * height) by (nonlinear_arith);
        }
        n
    }

    /// Every artifact site, row by row, left to right.
    pub fn artifact_sites(&self) -> (sites: Vec<Pos>)
        requires
            self.wf(),
            self@.room_fits(),
        ensures
            forall|i: int| 0 <= i < sites.len() ==> artifact_site(self@, #[trigger] sites[i]),
            forall|p: Pos| artifact_site(self@, p) ==> sites@.contains(p),
            row_major_sorted(sites@),
    {
        let (width, height) = self.get_size();
        let mut sites: Vec<Pos> = Vec::new();
        let mut y: usize = 0;
        while y < height
            invariant
                self.wf(),
                self@.room_fits(),
                width == self@.width,
                height == self@.height,
                y <= height,
                forall|i: int|
                    0 <= i < sites.len() ==> artifact_site(self@, #[trigger] sites[i]) && sites[i].y
                        < y,
                forall|p: Pos| artifact_site(self@, p) && p.y < y ==> sites@.contains(p),
                row_major_sorted(sites@),
            decreases height - y,
        {
            let mut x: usize = 0;
            while x < width
                invariant
                    self.wf(),
                    self@.room_fits(),
                    width == self@.width,
                    height == self@.height,
                    y < height,
                    x <= width,
                    forall|i: int|
                        0 <= i < sites.len() ==> artifact_site(self@, #[trigger] sites[i])
                            && row_major_lt(sites[i], Pos { x, y }),
                    forall|p: Pos|
                        artifact_site(self@, p) && row_major_lt(p, Pos { x, y })
                            ==> sites@.contains(p),
                    row_major_sorted(sites@),
                decreases width - x,
            {
                let ghost before = sites@;
                let here = Pos { x, y };
                if self.get(x, y) == CellType::Path && !self.in_room(here) {
                    sites.push(here);
                }
                proof {
                    let after = Pos { x: (x + 1) as usize, y };
                    assert forall|p: Pos|
                        artifact_site(self@, p) && row_major_lt(p, after) implies sites@.contains(
                        p,
                    ) by {
                        if p == here {
                            assert(sites@[sites.len() - 1] == here);
                        } else {
                            assert(row_major_lt(p, here));
                            let i = choose|i: int| 0 <= i < before.len() && before[i] == p;
                            assert(sites@[i] == p);
                        }
                    }
                }
                x += 1;
            }
            proof {
                assert forall|p: Pos| artifact_site(self@, p) && p.y < y + 1 implies sites@.contains(
                    p,
                ) by {
                    assert(row_major_lt(p, Pos { x, y }));
                }
            }
            y += 1;
        }
        sites
    }

    /// Marks `pos` and its neighbours inside the grid as taken.
    fn mark_around(&self, taken: &mut CellSet, pos: Pos)
        requires
            self.wf(),
            self@.contains(pos),
            old(taken).wf(),
            old(taken).width() == self@.width,
            old(taken).height() == self@.height,
        ensures
            final(taken).wf(),
            final(taken).width() == self@.width,
            final(taken).height() == self@.height,
            forall|p: Pos|
                self@.contains(p) ==> (#[trigger] final(taken)@.contains(p)
                    <==> old(taken)@.contains(p) || p
                    == pos || adjacent(pos, p)),
    {
        taken.insert(pos);
        let mut k: usize = 0;
        while k < 4
            invariant
                self.wf(),
                self@.contains(pos),
                taken.wf(),
                taken.width() == self@.width,
                taken.height() == self@.height,
                k <= 4,
                forall|p: Pos|
                    taken@.contains(p) <==> old(taken)@.contains(p) || p == pos || exists|j: int|
                        0 <= j < k && step_inside(self@, pos, j) && p == #[trigger] pos.neighbor(j),
            decreases 4 - k,
        {
            let ghost before = taken@;
            match self.step_toward(pos, k) {
                Some(n) => {
                    taken.insert(n);
                },
                None => {},
            }
            proof {
                assert forall|p: Pos|
                    taken@.contains(p) <==> old(taken)@.contains(p) || p == pos || exists|j: int|
                        0 <= j < k + 1 && step_inside(self@, pos, j) && p == #[trigger] pos.neighbor(
                            j,
                        ) by {
                    if before.contains(p) && !old(taken)@.contains(p) && p != pos {
                        let j = choose|j: int|
                            0 <= j < k && step_inside(self@, pos, j) && p == #[trigger] pos.neighbor(
                                j,
                            );
                        assert(0 <= j < k + 1 && step_inside(self@, pos, j) && p == pos.neighbor(j));
                    }
                    if step_inside(self@, pos, k as int) && p == pos.neighbor(k as int) {
                        assert(taken@.contains(p));
                    }
                    if exists|j: int|
                        0 <= j < k + 1 && step_inside(self@, pos, j) && p == #[trigger] pos.neighbor(
                            j,
                        ) {
                        let j = choose|j: int|
                            0 <= j < k + 1 && step_inside(self@, pos, j) && p
                                == #[trigger] pos.neighbor(j);
                        if j < k {
                            assert(before.contains(p));
                        }
                    }
                }
            }
            k += 1;
        }
        proof {
            let before = old(taken)@;
            assert forall|p: Pos| self@.contains(p) implies (#[trigger] taken@.contains(p)
                <==> before.contains(p) || p == pos || adjacent(pos, p)) by {
                if adjacent(pos, p) {
                    lemma_adjacent_is_neighbor(self@, pos, p);
                    let j = choose|j: int|
                        0 <= j < 4 && step_inside(self@, pos, j) && p == #[trigger] pos.neighbor(j);
                    assert(taken@.contains(p));
                }
                if taken@.contains(p) && !old(taken)@.contains(p) && p != pos {
                    let j = choose|j: int|
                        0 <= j < 4 && step_inside(self@, pos, j) && p == #[trigger] pos.neighbor(j);
                    assert(adjacent(pos, p));
                }
            }
        }
    }

    /// Walks through `order` and places an artifact, a reward when `reward`
    /// is set and a danger otherwise, of a kind drawn at random, on every
    /// position that is not taken, until `limit` are placed. `taken` holds
    /// the positions blocked by `earlier`, the placements made before.
    fn place_kind(
        &mut self,
        order: &Vec<Pos>,
        limit: usize,
        reward: bool,
        taken: &mut CellSet,
        Ghost(earlier): Ghost<Seq<Pos>>,
    ) -> (out: Vec<Pos>)
        requires
            old(self).wf(),
            forall|i: int| 0 <= i < order@.len() ==> old(self)@.contains(#[trigger] order@[i]),
            old(taken).wf(),
            old(taken).width() == old(self)@.width,
            old(taken).height() == old(self)@.height,
            forall|p: Pos|
                old(self)@.contains(p) ==> (#[trigger] old(taken)@.contains(p) <==> blocked(earlier, p)),
        ensures
            final(self).wf(),
            final(self)@.same_shape(old(self)@),
            final(taken).wf(),
            final(taken).width() == old(self)@.width,
            final(taken).height() == old(self)@.height,
            forall|p: Pos|
                old(self)@.contains(p) ==> (#[trigger] final(taken)@.contains(p) <==> blocked(
                    earlier + out@,
                    p,
                )),
            earlier + out@ == greedy(order@, limit as nat, earlier, 0),
            forall|i: int| 0 <= i < out@.len() ==> !earlier.contains(#[trigger] out@[i]),
            forall|p: Pos|
                final(self)@.contains(p) ==> (if out@.contains(p) {
                    if reward {
                        (#[trigger] final(self)@.at(p)).reward()
                    } else {
                        final(self)@.at(p).danger()
                    }
                } else {
                    final(self)@.at(p) == old(self)@.at(p)
                }),
    {
        let kinds = if reward {
            rewards()
        } else {
            dangers()
        };
        let mut out: Vec<Pos> = Vec::new();
        let mut i: usize = 0;
        proof {
            assert(earlier + out@ =~= earlier);
            assert(order@.skip(0) =~= order@);
        }
        while i < order.len() && out.len() < limit
            invariant
                self.wf(),
                self@.same_shape(old(self)@),
                forall|j: int| 0 <= j < order@.len() ==> self@.contains(#[trigger] order@[j]),
                taken.wf(),
                taken.width() == self@.width,
                taken.height() == self@.height,
                i <= order@.len(),
                out@.len() <= limit,
                kinds@.len() > 0,
                forall|j: int|
                    0 <= j < kinds@.len() ==> (if reward {
                        (#[trigger] kinds@[j]).reward()
                    } else {
                        kinds@[j].danger()
                    }),
                forall|p: Pos|
                    self@.contains(p) ==> (#[trigger] taken@.contains(p) <==> blocked(
                        earlier + out@,
                        p,
                    )),
                greedy(order@, limit as nat, earlier, 0) == greedy(
                    order@.skip(i as int),
                    limit as nat,
                    earlier + out@,
                    out@.len(),
                ),
                forall|j: int| 0 <= j < out@.len() ==> !earlier.contains(#[trigger] out@[j]),
                forall|p: Pos|
                    self@.contains(p) ==> (if out@.contains(p) {
                        if reward {
                            (#[trigger] self@.at(p)).reward()
                        } else {
                            self@.at(p).danger()
                        }
                    } else {
                        self@.at(p) == old(self)@.at(p)
                    }),
            decreases order@.len() - i,
        {
            let pos = order[i];
            let ghost before = out@;
            let ghost g = self@;
            let ghost held = taken@;
            proof {
                let rest = order@.skip(i as int);
                assert(rest[0] == pos);
                assert(rest.drop_first() =~= order@.skip(i + 1));
            }
            if !taken.contains(pos) {
                let kind = *pick(&kinds).unwrap();
                proof {
                    g.lemma_put(pos, kind);
                }
                self.set(pos.x, pos.y, kind);
                out.push(pos);
                self.mark_around(taken, pos);
                proof {
                    let all = earlier + before;
                    let now = earlier + out@;
                    assert(now =~= all.push(pos));
                    assert forall|p: Pos| self@.contains(p) implies (#[trigger] taken@.contains(p)
                        <==> blocked(now, p)) by {
                        lemma_blocked_push(all, pos, p);
                        assert(g.contains(p));
                        assert(held.contains(p) <==> blocked(all, p));
                        assert(taken@.contains(p) <==> held.contains(p) || p == pos || adjacent(
                            pos,
                            p,
                        ));
                    }
                    assert forall|j: int| 0 <= j < out@.len() implies !earlier.contains(
                        #[trigger] out@[j],
                    ) by {
                        if j < before.len() {
                            assert(out@[j] == before[j]);
                        } else if earlier.contains(pos) {
                            let m = choose|m: int| 0 <= m < earlier.len() && earlier[m] == pos;
                            assert(all[m] == pos);
                        }
                    }
                    assert forall|p: Pos| self@.contains(p) implies (if out@.contains(p) {
                        if reward {
                            (#[trigger] self@.at(p)).reward()
                        } else {
                            self@.at(p).danger()
                        }
                    } else {
                        self@.at(p) == old(self)@.at(p)
                    }) by {
                        if p == pos {
                            assert(out@[out@.len() - 1] == p);
                        } else {
                            assert(self@.at(p) == g.at(p));
                            if before.contains(p) {
                                let j = choose|j: int| 0 <= j < before.len() && before[j] == p;
                                assert(out@[j] == p);
                            }
                            if out@.contains(p) {
                                let j = choose|j: int| 0 <= j < out@.len() && out@[j] == p;
                                assert(before[j] == p);
                            }
                        }
                    }
                }
            }
            i += 1;
        }
        out
    }

    /// Places artifacts along `order`: first up to `reward_count` rewards,
    /// then up to `danger_count` dangers, each on the next position that
    /// neither holds a placement nor lies next to one. Reports where the
    /// rewards and where the dangers went. The kind of each artifact is
    /// drawn at random.
    pub fn place_along(&mut self, order: &Vec<Pos>, reward_count: usize, danger_count: usize) -> (placed:
        (Vec<Pos>, Vec<Pos>))
        requires
            old(self).wf(),
            forall|i: int| 0 <= i < order@.len() ==> old(self)@.contains(#[trigger] order@[i]),
        ensures
            final(self).wf(),
            placed.0@ == greedy(order@, reward_count as nat, Seq::empty(), 0),
            placed.0@ + placed.1@ == greedy(order@, danger_count as nat, placed.0@, 0),
            decorated(old(self)@, final(self)@, placed.0@, placed.1@),
            spread(placed.0@ + placed.1@),
    {
        let (width, height) = self.get_size();
        proof {
            self.lemma_addressable();
        }
        let mut taken = CellSet::new(width, height);
        let ghost none = Seq::<Pos>::empty();
        proof {
            assert forall|p: Pos| !blocked(none, p) by {}
        }
        let rewards_at = self.place_kind(order, reward_count, true, &mut taken, Ghost(none));
        let ghost g1 = self@;
        proof {
            assert(none + rewards_at@ =~= rewards_at@);
        }
        let dangers_at = self.place_kind(order, danger_count, false, &mut taken, Ghost(rewards_at@));
        proof {
            lemma_greedy(order@, reward_count as nat, none, 0);
            lemma_greedy(order@, danger_count as nat, rewards_at@, 0);
            assert forall|p: Pos| self@.contains(p) implies (if rewards_at@.contains(p) {
                (#[trigger] self@.at(p)).reward()
            } else if dangers_at@.contains(p) {
                self@.at(p).danger()
            } else {
                self@.at(p) == old(self)@.at(p)
            }) by {
                if rewards_at@.contains(p) && dangers_at@.contains(p) {
                    let j = choose|j: int| 0 <= j < dangers_at@.len() && dangers_at@[j] == p;
                    assert(!rewards_at@.contains(dangers_at@[j]));
                }
                assert(g1.contains(p));
            }
        }
        (rewards_at, dangers_at)
    }

    /// Places `artifacts_count` artifacts, fewer where the sites run out:
    /// two fifths of them, rounded down, as rewards and the rest as
    /// dangers, on `Path` cells outside the central room taken in random
    /// order, never two side by side.
    pub fn place_artifacts(&mut self, artifacts_count: usize)
        requires
            old(self).wf(),
            old(self)@.room_fits(),
        ensures
            final(self).wf(),
            artifacts_placed(old(self)@, final(self)@, artifacts_count as nat),
    {
        let mut order = self.artifact_sites();
        let ghost sites = order@;
        shuffle(&mut order);
        let reward_count = artifacts_count / 5 * 2 + (artifacts_count % 5) * 2 / 5;
        let danger_count = artifacts_count - reward_count;
        proof {
            assert(reward_count == reward_share(artifacts_count as int));
            assert(sites.no_duplicates()) by {
                assert forall|i: int, j: int|
                    0 <= i < sites.len() && 0 <= j < sites.len() && i != j implies sites[i]
                    != sites[j] by {
                    if i < j {
                        assert(row_major_lt(sites[i], sites[j]));
                    } else {
                        assert(row_major_lt(sites[j], sites[i]));
                    }
                }
            }
            sites.lemma_multiset_has_no_duplicates();
            order@.lemma_multiset_has_no_duplicates_conv();
            sites.to_multiset_ensures();
            order@.to_multiset_ensures();
            assert forall|p: Pos| order@.contains(p) <==> artifact_site(self@, p) by {
                assert(order@.contains(p) <==> order@.to_multiset().count(p) > 0);
                assert(sites.contains(p) <==> sites.to_multiset().count(p) > 0);
                if sites.contains(p) {
                    let i = choose|i: int| 0 <= i < sites.len() && sites[i] == p;
                }
            }
            assert(is_site_order(self@, order@));
            assert forall|i: int| 0 <= i < order@.len() implies self@.contains(
                #[trigger] order@[i],
            ) by {
                assert(order@.contains(order@[i]));
            }
        }
        let placed = self.place_along(&order, reward_count, danger_count);
        proof {
            assert(placed_along(
                old(self)@,
                self@,
                artifacts_count as nat,
                order@,
                placed.0@,
                placed.1@,
            ));
        }
    }
}

} // verus!
