//! Square grids stored row by row, with the index arithmetic proved once.

use vstd::prelude::*;
use vstd::set_lib::{lemma_int_range, lemma_len_subset, set_int_range};

verus! {

/// True when `(r, c)` lies on a square grid of side `n`.
pub open spec fn in_bounds(n: int, r: int, c: int) -> bool {
    0 <= r < n && 0 <= c < n
}

proof fn lemma_index_in_range(n: int, r: int, c: int)
    requires
        in_bounds(n, r, c),
    ensures
        0 <= r * n + c < n * n,
{
    assert(r * n + c < n * n) by (nonlinear_arith)
        requires
            0 <= r < n,
            0 <= c < n,
    ;
    assert(0 <= r * n) by (nonlinear_arith)
        requires
            0 <= r,
            0 <= n,
    ;
}

proof fn lemma_index_injective(n: int, r1: int, c1: int, r2: int, c2: int)
    requires
        in_bounds(n, r1, c1),
        in_bounds(n, r2, c2),
        r1 * n + c1 == r2 * n + c2,
    ensures
        r1 == r2,
        c1 == c2,
{
    if r1 < r2 {
        assert(r1 * n + n <= r2 * n) by (nonlinear_arith)
            requires
                r1 < r2,
                0 <= n,
        ;
    } else if r2 < r1 {
        assert(r2 * n + n <= r1 * n) by (nonlinear_arith)
            requires
                r2 < r1,
                0 <= n,
        ;
    }
}

/// Distinct coordinates on a grid of side `n` number at most `n * n`.
pub proof fn lemma_distinct_cells_bound(n: int, s: Seq<(usize, usize)>)
    requires
        0 <= n,
        s.no_duplicates(),
        forall|k: int| 0 <= k < s.len() ==> in_bounds(n, #[trigger] s[k].0 as int, s[k].1 as int),
    ensures
        s.len() <= n * n,
{
    let keys = s.map_values(|q: (usize, usize)| q.0 * n + q.1);
    assert forall|i: int, j: int| 0 <= i < keys.len() && 0 <= j < keys.len() && i != j
        implies keys[i] != keys[j] by {
        if keys[i] == keys[j] {
            lemma_index_injective(n, s[i].0 as int, s[i].1 as int, s[j].0 as int, s[j].1 as int);
        }
    }
    keys.unique_seq_to_set();
    assert(0 <= n * n) by (nonlinear_arith)
        requires
            0 <= n,
    ;
    lemma_int_range(0, n * n);
    assert forall|x: int| keys.to_set().contains(x) implies set_int_range(0, n * n).contains(x) by {
        let k = choose|k: int| 0 <= k < keys.len() && keys[k] == x;
        lemma_index_in_range(n, s[k].0 as int, s[k].1 as int);
    }
    lemma_len_subset(keys.to_set(), set_int_range(0, n * n));
}

/// A square grid of side `n`, stored row by row in one vector.
pub struct Grid<T> {
    n: usize,
    data: Vec<T>,
}

impl<T: Copy> Grid<T> {
    /// The side length of the grid.
    pub closed spec fn side(&self) -> int {
        self.n as int
    }

    /// The value stored at row `r`, column `c`.
    pub closed spec fn at(&self, r: int, c: int) -> T {
        self.data@[r * self.n + c]
    }

    pub closed spec fn wf(&self) -> bool {
        &&& self.n * self.n <= usize::MAX
        &&& self.data@.len() == self.n * self.n
    }

    /// A grid of side `n` with every cell set to `v`.
    pub fn new(n: usize, v: T) -> (g: Self)
        requires
            n * n <= usize::MAX,
        ensures
            g.wf(),
            g.side() == n,
            forall|r: int, c: int| in_bounds(n as int, r, c) ==> #[trigger] g.at(r, c) == v,
    {
        let total: usize = n * n;
        let mut data: Vec<T> = Vec::new();
        while data.len() < total
            invariant
                data@.len() <= total,
                forall|i: int| 0 <= i < data@.len() ==> data@[i] == v,
            decreases total - data@.len(),
        {
            data.push(v);
        }
        let g = Grid { n, data };
        assert forall|r: int, c: int| in_bounds(n as int, r, c) implies #[trigger] g.at(r, c) == v by {
            lemma_index_in_range(n as int, r, c);
        }
        g
    }

    pub fn side_len(&self) -> (s: usize)
        ensures
            s == self.side(),
    {
        self.n
    }

    pub fn get(&self, r: usize, c: usize) -> (v: T)
        requires
            self.wf(),
            in_bounds(self.side(), r as int, c as int),
        ensures
            v == self.at(r as int, c as int),
    {
        proof {
            lemma_index_in_range(self.n as int, r as int, c as int);
        }
        self.data[r * self.n + c]
    }

    pub fn set(&mut self, r: usize, c: usize, v: T)
        requires
            old(self).wf(),
            in_bounds(old(self).side(), r as int, c as int),
        ensures
            final(self).wf(),
            final(self).side() == old(self).side(),
            final(self).at(r as int, c as int) == v,
            forall|r2: int, c2: int|
                in_bounds(old(self).side(), r2, c2) && (r2 != r || c2 != c)
                    ==> #[trigger] final(self).at(r2, c2) == old(self).at(r2, c2),
    {
        proof {
            lemma_index_in_range(self.n as int, r as int, c as int);
        }
        let i = r * self.n + c;
        self.data.set(i, v);
        let ghost n = self.n as int;
        assert forall|r2: int, c2: int|
            in_bounds(n, r2, c2) && (r2 != r || c2 != c)
                implies #[trigger] self.at(r2, c2) == old(self).at(r2, c2) by {
            lemma_index_in_range(n, r2, c2);
            if r2 * n + c2 == i {
                lemma_index_injective(n, r2, c2, r as int, c as int);
            }
        }
    }
}

} // verus!
