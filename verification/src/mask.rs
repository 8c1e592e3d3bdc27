//! A set of grid positions, stored as one flag per cell.

use crate::pos::{lemma_flat_index, Pos};
use vstd::prelude::*;

verus! {

/// Number of `false` entries of `s`.
pub open spec fn count_false(s: Seq<bool>) -> nat
    decreases s.len(),
{
    if s.len() == 0 {
        0
    } else {
        count_false(s.drop_last()) + if s.last() {
            0nat
        } else {
            1nat
        }
    }
}

/// Setting a `false` entry leaves one `false` entry less.
pub proof fn lemma_count_false_set(s: Seq<bool>, i: int)
    requires
        0 <= i < s.len(),
        !s[i],
    ensures
        count_false(s.update(i, true)) + 1 == count_false(s),
    decreases s.len(),
{
    let t = s.update(i, true);
    if i == s.len() - 1 {
        assert(t.drop_last() =~= s.drop_last());
    } else {
        assert(t.drop_last() =~= s.drop_last().update(i, true));
        lemma_count_false_set(s.drop_last(), i);
    }
}

/// Where every entry is `false`, as many are `false` as there are entries.
pub proof fn lemma_count_false_all(s: Seq<bool>)
    requires
        forall|i: int| 0 <= i < s.len() ==> !s[i],
    ensures
        count_false(s) == s.len(),
    decreases s.len(),
{
    if s.len() > 0 {
        lemma_count_false_all(s.drop_last());
    }
}

/// A sequence without a `false` entry holds `true` everywhere.
pub proof fn lemma_count_false_none(s: Seq<bool>, i: int)
    requires
        count_false(s) == 0,
        0 <= i < s.len(),
    ensures
        s[i],
    decreases s.len(),
{
    if i < s.len() - 1 {
        lemma_count_false_none(s.drop_last(), i);
    }
}

/// A set of positions of a `width` x `height` rectangle.
pub struct CellSet {
    width: usize,
    height: usize,
    marks: Vec<bool>,
}

impl View for CellSet {
    type V = Set<Pos>;

    closed spec fn view(&self) -> Set<Pos> {
        Set::new(
            |p: Pos| p.x < self.width && p.y < self.height && self.marks@[p.y * self.width + p.x],
        )
    }
}

impl CellSet {
    pub closed spec fn wf(&self) -> bool {
        self.marks.len() == self.width * self.height
    }

    pub closed spec fn width(&self) -> nat {
        self.width as nat
    }

    pub closed spec fn height(&self) -> nat {
        self.height as nat
    }

    /// How many cells of the rectangle are not in the set.
    pub closed spec fn free(&self) -> nat {
        count_false(self.marks@)
    }

    /// The empty set over a `width` x `height` rectangle.
    pub fn new(width: usize, height: usize) -> (s: CellSet)
        requires
            width * height <= usize::MAX,
        ensures
            s.wf(),
            s.width() == width,
            s.height() == height,
            s@ == Set::<Pos>::empty(),
            s.free() == width * height,
    {
        let s = CellSet { width, height, marks: vec![false; width * height] };
        proof {
            lemma_count_false_all(s.marks@);
            assert forall|p: Pos| !s@.contains(p) by {
                if p.x < width && p.y < height {
                    lemma_flat_index(width as int, height as int, p.x as int, p.y as int);
                }
            }
            assert(s@ =~= Set::<Pos>::empty());
        }
        s
    }

    pub fn contains(&self, p: Pos) -> (b: bool)
        requires
            self.wf(),
        ensures
            b == self@.contains(p),
    {
        if p.x < self.width && p.y < self.height {
            proof {
                lemma_flat_index(self.width as int, self.height as int, p.x as int, p.y as int);
            }
            self.marks[p.y * self.width + p.x]
        } else {
            false
        }
    }

    /// Adds `p`; the number of free cells drops by one when `p` is new.
    pub fn insert(&mut self, p: Pos)
        requires
            old(self).wf(),
            p.x < old(self).width(),
            p.y < old(self).height(),
        ensures
            final(self).wf(),
            final(self).width() == old(self).width(),
            final(self).height() == old(self).height(),
            final(self)@ == old(self)@.insert(p),
            old(self)@.contains(p) ==> final(self).free() == old(self).free(),
            !old(self)@.contains(p) ==> final(self).free() + 1 == old(self).free(),
    {
        proof {
            lemma_flat_index(self.width as int, self.height as int, p.x as int, p.y as int);
        }
        let i = p.y * self.width + p.x;
        proof {
            if !self.marks@[i as int] {
                lemma_count_false_set(self.marks@, i as int);
            } else {
                assert(self.marks@.update(i as int, true) =~= self.marks@);
            }
        }
        self.marks.set(i, true);
        proof {
            assert forall|q: Pos| self@.contains(q) == old(self)@.insert(p).contains(q) by {
                if q.x < self.width && q.y < self.height {
                    lemma_flat_index(self.width as int, self.height as int, q.x as int, q.y as int);
                }
            }
            assert(self@ =~= old(self)@.insert(p));
        }
    }
}

/// A number for every position of a `width` x `height` rectangle.
pub struct CellMap {
    width: usize,
    height: usize,
    slots: Vec<usize>,
}

impl CellMap {
    pub closed spec fn wf(&self) -> bool {
        self.slots.len() == self.width * self.height
    }

    pub closed spec fn width(&self) -> nat {
        self.width as nat
    }

    pub closed spec fn height(&self) -> nat {
        self.height as nat
    }

    /// The number stored for `p`.
    pub closed spec fn at(&self, p: Pos) -> usize {
        self.slots@[p.y * self.width + p.x]
    }

    /// The map that holds `fill` everywhere.
    pub fn new(width: usize, height: usize, fill: usize) -> (m: CellMap)
        requires
            width * height <= usize::MAX,
        ensures
            m.wf(),
            m.width() == width,
            m.height() == height,
            forall|p: Pos| p.x < width && p.y < height ==> #[trigger] m.at(p) == fill,
    {
        let m = CellMap { width, height, slots: vec![fill; width * height] };
        proof {
            assert forall|p: Pos| p.x < width && p.y < height implies #[trigger] m.at(p) == fill by {
                lemma_flat_index(width as int, height as int, p.x as int, p.y as int);
            }
        }
        m
    }

    pub fn get(&self, p: Pos) -> (v: usize)
        requires
            self.wf(),
            p.x < self.width(),
            p.y < self.height(),
        ensures
            v == self.at(p),
    {
        proof {
            lemma_flat_index(self.width as int, self.height as int, p.x as int, p.y as int);
        }
        self.slots[p.y * self.width + p.x]
    }

    /// Stores `v` for `p`; every other position keeps its number.
    pub fn set(&mut self, p: Pos, v: usize)
        requires
            old(self).wf(),
            p.x < old(self).width(),
            p.y < old(self).height(),
        ensures
            final(self).wf(),
            final(self).width() == old(self).width(),
            final(self).height() == old(self).height(),
            final(self).at(p) == v,
            forall|q: Pos|
                q.x < old(self).width() && q.y < old(self).height() && q != p ==> #[trigger] final(self).at(q) == old(self).at(q),
    {
        proof {
            lemma_flat_index(self.width as int, self.height as int, p.x as int, p.y as int);
        }
        let i = p.y * self.width + p.x;
        self.slots.set(i, v);
        proof {
            assert forall|q: Pos|
                q.x < self.width && q.y < self.height && q != p implies #[trigger] self.at(q)
                == old(self).at(q) by {
                lemma_flat_index(self.width as int, self.height as int, q.x as int, q.y as int);
            }
        }
    }
}

} // verus!
