//! King-move adjacency and hazard counting.

use vstd::prelude::*;
use crate::board::Board;

verus! {

/// `(r2, c2)` is one king move away from `(r1, c1)`, both on a grid of side `n`.
pub open spec fn adjacent(n: int, r1: int, c1: int, r2: int, c2: int) -> bool {
    &&& crate::grid::in_bounds(n, r1, c1)
    &&& crate::grid::in_bounds(n, r2, c2)
    &&& (r1 != r2 || c1 != c2)
    &&& -1 <= r2 - r1 <= 1
    &&& -1 <= c2 - c1 <= 1
}

impl Board {
    /// 1 when `(r, c)` is on the grid and holds a hazard, 0 otherwise
    /// (in particular off the grid).
    pub open spec fn hazard_weight(&self, r: int, c: int) -> int {
        if self.in_grid(r, c) && self.hazard(r, c) {
            1
        } else {
            0
        }
    }

    /// The number of hazards among the eight king-move neighbours of
    /// `(r, c)`; neighbours off the grid count for nothing.
    pub open spec fn hazard_count(&self, r: int, c: int) -> int {
        self.hazard_weight(r - 1, c - 1) + self.hazard_weight(r - 1, c) + self.hazard_weight(r - 1, c + 1)
            + self.hazard_weight(r, c - 1) + self.hazard_weight(r, c + 1)
            + self.hazard_weight(r + 1, c - 1) + self.hazard_weight(r + 1, c) + self.hazard_weight(r + 1, c + 1)
    }

    /// The hazard cells one king move away from `(r, c)`.
    pub open spec fn hazard_neighbors(&self, r: int, c: int) -> Set<(int, int)> {
        Set::new(|q: (int, int)| adjacent(self.n(), r, c, q.0, q.1) && self.hazard(q.0, q.1))
    }

    spec fn step(&self, s: Set<(int, int)>, r: int, c: int) -> Set<(int, int)> {
        if self.hazard_weight(r, c) == 1 {
            s.insert((r, c))
        } else {
            s
        }
    }

    /// The hazard count of a cell on the grid is the number of hazard cells
    /// adjacent to it.
    pub proof fn lemma_count_is_hazard_neighbors(&self, r: int, c: int)
        requires
            self.in_grid(r, c),
        ensures
            self.hazard_neighbors(r, c).finite(),
            self.hazard_neighbors(r, c).len() == self.hazard_count(r, c),
    {
        let s0 = Set::<(int, int)>::empty();
        let s1 = self.step(s0, r - 1, c - 1);
        let s2 = self.step(s1, r - 1, c);
        let s3 = self.step(s2, r - 1, c + 1);
        let s4 = self.step(s3, r, c - 1);
        let s5 = self.step(s4, r, c + 1);
        let s6 = self.step(s5, r + 1, c - 1);
        let s7 = self.step(s6, r + 1, c);
        let s8 = self.step(s7, r + 1, c + 1);
        assert(s1.finite() && s1.len() == self.hazard_weight(r - 1, c - 1));
        assert(!s1.contains((r - 1, c)));
        assert(s2.finite() && s2.len() == s1.len() + self.hazard_weight(r - 1, c));
        assert(!s2.contains((r - 1, c + 1)));
        assert(s3.finite() && s3.len() == s2.len() + self.hazard_weight(r - 1, c + 1));
        assert(!s3.contains((r, c - 1)));
        assert(s4.finite() && s4.len() == s3.len() + self.hazard_weight(r, c - 1));
        assert(!s4.contains((r, c + 1)));
        assert(s5.finite() && s5.len() == s4.len() + self.hazard_weight(r, c + 1));
        assert(!s5.contains((r + 1, c - 1)));
        assert(s6.finite() && s6.len() == s5.len() + self.hazard_weight(r + 1, c - 1));
        assert(!s6.contains((r + 1, c)));
        assert(s7.finite() && s7.len() == s6.len() + self.hazard_weight(r + 1, c));
        assert(!s7.contains((r + 1, c + 1)));
        assert(s8.finite() && s8.len() == s7.len() + self.hazard_weight(r + 1, c + 1));
        assert(s8 =~= self.hazard_neighbors(r, c));
    }

    /// Boards with the same layout have the same hazard counts.
    pub proof fn lemma_count_same_layout(&self, other: &Board, r: int, c: int)
        requires
            self.same_layout(other),
        ensures
            self.hazard_count(r, c) == other.hazard_count(r, c),
    {
        assert forall|dr: int, dc: int|
            self.hazard_weight(r + dr, c + dc) == #[trigger] other.hazard_weight(r + dr, c + dc) by {
            if self.in_grid(r + dr, c + dc) {
                assert(self.hazard(r + dr, c + dc) == other.hazard(r + dr, c + dc));
            }
        }
        assert(self.hazard_weight(r - 1, c - 1) == other.hazard_weight(r + (-1), c + (-1)));
        assert(self.hazard_weight(r - 1, c) == other.hazard_weight(r + (-1), c + 0));
        assert(self.hazard_weight(r - 1, c + 1) == other.hazard_weight(r + (-1), c + 1));
        assert(self.hazard_weight(r, c - 1) == other.hazard_weight(r + 0, c + (-1)));
        assert(self.hazard_weight(r, c + 1) == other.hazard_weight(r + 0, c + 1));
        assert(self.hazard_weight(r + 1, c - 1) == other.hazard_weight(r + 1, c + (-1)));
        assert(self.hazard_weight(r + 1, c) == other.hazard_weight(r + 1, c + 0));
        assert(self.hazard_weight(r + 1, c + 1) == other.hazard_weight(r + 1, c + 1));
    }

    /// A neighbour that holds a hazard makes the count positive.
    pub proof fn lemma_hazard_neighbor_counts(&self, r: int, c: int, r2: int, c2: int)
        requires
            adjacent(self.n(), r, c, r2, c2),
            self.hazard(r2, c2),
        ensures
            self.hazard_count(r, c) >= 1,
    {
        assert(self.hazard_weight(r2, c2) == 1);
    }

    /// `hazard_weight(r + dr - 1, c + dc - 1)`: the offsets are shifted by
    /// one so that they stay unsigned.
    fn weight_at(&self, r: usize, c: usize, dr: usize, dc: usize) -> (w: u8)
        requires
            self.wf(),
            self.in_grid(r as int, c as int),
            dr <= 2,
            dc <= 2,
        ensures
            w == self.hazard_weight(r + dr - 1, c + dc - 1),
    {
        let n = self.size();
        if (dr == 0 && r == 0) || (dc == 0 && c == 0) {
            return 0;
        }
        let r2 = if dr == 0 { r - 1 } else { r + (dr - 1) };
        let c2 = if dc == 0 { c - 1 } else { c + (dc - 1) };
        if r2 < n && c2 < n && self.hazard_at(r2, c2) {
            1
        } else {
            0
        }
    }

    /// The number of hazards among the king-move neighbours of `pos` that lie
    /// on the grid.
    pub fn count_neighbors_at(&self, pos: (usize, usize)) -> (k: u8)
        requires
            self.wf(),
            self.in_grid(pos.0 as int, pos.1 as int),
        ensures
            k == self.hazard_count(pos.0 as int, pos.1 as int),
            k == self.hazard_neighbors(pos.0 as int, pos.1 as int).len(),
            k <= 8,
    {
        proof {
            self.lemma_count_is_hazard_neighbors(pos.0 as int, pos.1 as int);
        }
        let (r, c) = pos;
        let sum: u8 = self.weight_at(r, c, 0, 0) + self.weight_at(r, c, 0, 1) + self.weight_at(r, c, 0, 2)
            + self.weight_at(r, c, 1, 0) + self.weight_at(r, c, 1, 2)
            + self.weight_at(r, c, 2, 0) + self.weight_at(r, c, 2, 1) + self.weight_at(r, c, 2, 2);
        sum
    }
}

} // verus!
