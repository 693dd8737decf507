//! The flood reveal: which cells it uncovers, and the breadth-first search
//! that finds them.

use vstd::prelude::*;
use crate::board::{Board, State};
use crate::grid::{lemma_distinct_cells_bound, Grid};
use crate::neighbors::adjacent;

verus! {

/// Some entry among the first `upto` of `s` is the cell `(r, c)`.
pub open spec fn listed(s: Seq<(usize, usize)>, upto: int, r: int, c: int) -> bool {
    exists|j: int| 0 <= j < upto && j < s.len() && #[trigger] s[j].0 == r && s[j].1 == c
}

impl Board {
    /// `(r, c)` is a safe cell on the grid with no hazard around it.
    pub open spec fn is_zero(&self, r: int, c: int) -> bool {
        &&& self.in_grid(r, c)
        &&& !self.hazard(r, c)
        &&& self.hazard_count(r, c) == 0
    }

    /// Every cell of `path` is a zero cell and each is adjacent to the next.
    pub open spec fn zero_path(&self, path: Seq<(int, int)>) -> bool {
        &&& forall|i: int| 0 <= i < path.len() ==> self.is_zero(#[trigger] path[i].0, path[i].1)
        &&& forall|i: int|
            0 <= i < path.len() - 1 ==> adjacent(self.n(), #[trigger] path[i].0, path[i].1, path[i + 1].0, path[i + 1].1)
    }

    /// `(r, c)` is reached from `origin` by a path of zero cells.
    pub open spec fn in_zero_region(&self, origin: (int, int), r: int, c: int) -> bool {
        exists|path: Seq<(int, int)>|
            #![trigger self.zero_path(path)]
            path.len() > 0 && path[0] == origin && path.last() == (r, c) && self.zero_path(path)
    }

    /// The cells a flood from `origin` uncovers: the zero region of `origin`
    /// and every cell next to it.
    pub open spec fn in_flood(&self, origin: (int, int), r: int, c: int) -> bool {
        ||| self.in_zero_region(origin, r, c)
        ||| exists|p: (int, int)|
            self.in_zero_region(origin, p.0, p.1) && #[trigger] adjacent(self.n(), p.0, p.1, r, c)
    }

    /// A zero cell is in its own zero region.
    pub proof fn lemma_origin_in_region(&self, origin: (int, int))
        requires
            self.is_zero(origin.0, origin.1),
        ensures
            self.in_zero_region(origin, origin.0, origin.1),
    {
        let path = seq![origin];
        assert(self.zero_path(path));
    }

    /// The zero cells uncovered by a flood are exactly its zero region.
    pub proof fn lemma_flood_zero_in_region(&self, origin: (int, int), r: int, c: int)
        requires
            self.in_flood(origin, r, c),
            self.is_zero(r, c),
        ensures
            self.in_zero_region(origin, r, c),
    {
        if !self.in_zero_region(origin, r, c) {
            let p = choose|p: (int, int)|
                self.in_zero_region(origin, p.0, p.1) && #[trigger] adjacent(self.n(), p.0, p.1, r, c);
            let path = choose|path: Seq<(int, int)>|
                #![trigger self.zero_path(path)]
                path.len() > 0 && path[0] == origin && path.last() == (p.0, p.1) && self.zero_path(path);
            let longer = path.push((r, c));
            assert forall|i: int| 0 <= i < longer.len() - 1 implies adjacent(
                self.n(),
                #[trigger] longer[i].0,
                longer[i].1,
                longer[i + 1].0,
                longer[i + 1].1,
            ) by {
                if i < path.len() - 1 {
                    assert(longer[i] == path[i] && longer[i + 1] == path[i + 1]);
                }
            }
            assert(self.zero_path(longer));
        }
    }

    /// A flood never uncovers a hazard.
    pub proof fn lemma_flood_is_safe(&self, origin: (int, int), r: int, c: int)
        requires
            self.in_flood(origin, r, c),
        ensures
            self.in_grid(r, c),
            !self.hazard(r, c),
    {
        if self.in_zero_region(origin, r, c) {
            let path = choose|path: Seq<(int, int)>|
                #![trigger self.zero_path(path)]
                path.len() > 0 && path[0] == origin && path.last() == (r, c) && self.zero_path(path);
            assert(self.is_zero(path[path.len() - 1].0, path[path.len() - 1].1));
        } else {
            let p = choose|p: (int, int)|
                self.in_zero_region(origin, p.0, p.1) && #[trigger] adjacent(self.n(), p.0, p.1, r, c);
            let path = choose|path: Seq<(int, int)>|
                #![trigger self.zero_path(path)]
                path.len() > 0 && path[0] == origin && path.last() == (p.0, p.1) && self.zero_path(path);
            assert(self.is_zero(path[path.len() - 1].0, path[path.len() - 1].1));
            if self.hazard(r, c) {
                self.lemma_hazard_neighbor_counts(p.0, p.1, r, c);
            }
        }
    }

    proof fn lemma_closed_along_path(&self, origin: (int, int), s: spec_fn(int, int) -> bool, path: Seq<(int, int)>, i: int)
        requires
            s(origin.0, origin.1),
            forall|r1: int, c1: int, r2: int, c2: int|
                #![trigger s(r1, c1), adjacent(self.n(), r1, c1, r2, c2)]
                s(r1, c1) && self.is_zero(r1, c1) && adjacent(self.n(), r1, c1, r2, c2) ==> s(r2, c2),
            path.len() > 0,
            path[0] == origin,
            self.zero_path(path),
            0 <= i < path.len(),
        ensures
            s(path[i].0, path[i].1),
        decreases i,
    {
        if i > 0 {
            self.lemma_closed_along_path(origin, s, path, i - 1);
            assert(self.is_zero(path[i - 1].0, path[i - 1].1));
            assert(adjacent(self.n(), path[i - 1].0, path[i - 1].1, path[i].0, path[i].1));
        }
    }

    /// Search state: `queue` lists the cells found so far, in order, each
    /// once; `mark` holds one plus the queue position of each found cell and
    /// zero elsewhere; every found cell belongs to the flood from `origin`.
    spec fn search_ok(&self, origin: (usize, usize), mark: Grid<usize>, queue: Seq<(usize, usize)>) -> bool {
        &&& mark.wf()
        &&& mark.side() == self.n()
        &&& 1 <= queue.len() <= self.n() * self.n()
        &&& queue[0] == origin
        &&& self.search_links(origin, mark, queue)
    }

    #[verifier::opaque]
    spec fn search_links(&self, origin: (usize, usize), mark: Grid<usize>, queue: Seq<(usize, usize)>) -> bool {
        &&& forall|k: int|
            0 <= k < queue.len() ==> {
                &&& self.in_grid(#[trigger] queue[k].0 as int, queue[k].1 as int)
                &&& mark.at(queue[k].0 as int, queue[k].1 as int) == k + 1
                &&& self.in_flood((origin.0 as int, origin.1 as int), queue[k].0 as int, queue[k].1 as int)
            }
        &&& forall|r: int, c: int|
            self.in_grid(r, c) && #[trigger] mark.at(r, c) != 0 ==> {
                &&& mark.at(r, c) <= queue.len()
                &&& queue[mark.at(r, c) - 1].0 == r
                &&& queue[mark.at(r, c) - 1].1 == c
            }
    }

    /// Looks at the neighbour `(r + dr - 1, c + dc - 1)` of the zero cell
    /// `(r, c)` and appends it to the queue if it is on the grid and new.
    fn discover(
        &self,
        origin: (usize, usize),
        mark: &mut Grid<usize>,
        queue: &mut Vec<(usize, usize)>,
        r: usize,
        c: usize,
        dr: usize,
        dc: usize,
    )
        requires
            self.wf(),
            self.search_ok(origin, *old(mark), old(queue)@),
            self.is_zero(r as int, c as int),
            self.in_zero_region((origin.0 as int, origin.1 as int), r as int, c as int),
            dr <= 2,
            dc <= 2,
            dr != 1 || dc != 1,
        ensures
            self.search_ok(origin, *final(mark), final(queue)@),
            old(queue)@.len() <= final(queue)@.len(),
            forall|k: int| 0 <= k < old(queue)@.len() ==> #[trigger] final(queue)@[k] == old(queue)@[k],
            forall|x: int, y: int|
                self.in_grid(x, y) && #[trigger] old(mark).at(x, y) != 0 ==> final(mark).at(x, y) != 0,
            self.in_grid(r + dr - 1, c + dc - 1) ==> final(mark).at(r + dr - 1, c + dc - 1) != 0,
    {
        let n = self.size();
        if (dr == 0 && r == 0) || (dc == 0 && c == 0) {
            return;
        }
        let r2 = if dr == 0 { r - 1 } else { r + (dr - 1) };
        let c2 = if dc == 0 { c - 1 } else { c + (dc - 1) };
        if r2 >= n || c2 >= n {
            return;
        }
        if mark.get(r2, c2) == 0 {
            let ghost q0 = queue@;
            let ghost m0 = *mark;
            proof {
                self.lemma_next_to_region((origin.0 as int, origin.1 as int), r as int, c as int, r2 as int, c2 as int);
                self.lemma_search_room(origin, m0, q0, r2, c2);
            }
            let k = queue.len();
            mark.set(r2, c2, k + 1);
            queue.push((r2, c2));
            proof {
                self.lemma_search_push(origin, m0, q0, *mark, r2, c2);
            }
        }
    }

    proof fn lemma_next_to_region(&self, o: (int, int), r: int, c: int, r2: int, c2: int)
        requires
            self.in_zero_region(o, r, c),
            adjacent(self.n(), r, c, r2, c2),
        ensures
            self.in_flood(o, r2, c2),
    {
        let p = (r, c);
        assert(self.in_zero_region(o, p.0, p.1) && adjacent(self.n(), p.0, p.1, r2, c2));
    }

    /// A cell not yet found leaves room for one more entry in the queue.
    proof fn lemma_search_room(&self, origin: (usize, usize), m0: Grid<usize>, q0: Seq<(usize, usize)>, r2: usize, c2: usize)
        requires
            self.search_ok(origin, m0, q0),
            self.in_grid(r2 as int, c2 as int),
            m0.at(r2 as int, c2 as int) == 0,
        ensures
            q0.len() + 1 <= self.n() * self.n(),
    {
        reveal(Board::search_links);
        let grown = q0.push((r2, c2));
        assert forall|i: int, j: int| 0 <= i < grown.len() && 0 <= j < grown.len() && i != j
            implies grown[i] != grown[j] by {
            if i < q0.len() {
                assert(m0.at(q0[i].0 as int, q0[i].1 as int) == i + 1);
            }
            if j < q0.len() {
                assert(m0.at(q0[j].0 as int, q0[j].1 as int) == j + 1);
            }
        }
        assert forall|k: int| 0 <= k < grown.len() implies crate::grid::in_bounds(
            self.n(),
            #[trigger] grown[k].0 as int,
            grown[k].1 as int,
        ) by {
            if k < q0.len() {
                assert(self.in_grid(q0[k].0 as int, q0[k].1 as int));
            }
        }
        lemma_distinct_cells_bound(self.n(), grown);
    }

    /// Appending a new cell of the flood to the queue, and marking it with
    /// its position, keeps the search state sound.
    proof fn lemma_search_push(
        &self,
        origin: (usize, usize),
        m0: Grid<usize>,
        q0: Seq<(usize, usize)>,
        m1: Grid<usize>,
        r2: usize,
        c2: usize,
    )
        requires
            self.search_ok(origin, m0, q0),
            self.in_grid(r2 as int, c2 as int),
            m0.at(r2 as int, c2 as int) == 0,
            self.in_flood((origin.0 as int, origin.1 as int), r2 as int, c2 as int),
            q0.len() + 1 <= self.n() * self.n(),
            m1.wf(),
            m1.side() == m0.side(),
            m1.at(r2 as int, c2 as int) == q0.len() + 1,
            forall|x: int, y: int|
                crate::grid::in_bounds(m0.side(), x, y) && (x != r2 || y != c2) ==> #[trigger] m1.at(x, y) == m0.at(x, y),
        ensures
            self.search_ok(origin, m1, q0.push((r2, c2))),
            forall|x: int, y: int| self.in_grid(x, y) && #[trigger] m0.at(x, y) != 0 ==> m1.at(x, y) != 0,
    {
        reveal(Board::search_links);
        let q1 = q0.push((r2, c2));
        let o = (origin.0 as int, origin.1 as int);
        assert forall|j: int| 0 <= j < q1.len() implies {
            &&& self.in_grid(#[trigger] q1[j].0 as int, q1[j].1 as int)
            &&& m1.at(q1[j].0 as int, q1[j].1 as int) == j + 1
            &&& self.in_flood(o, q1[j].0 as int, q1[j].1 as int)
        } by {
            if j < q0.len() {
                assert(q1[j] == q0[j]);
                assert(m0.at(q0[j].0 as int, q0[j].1 as int) == j + 1);
                assert(crate::grid::in_bounds(m0.side(), q0[j].0 as int, q0[j].1 as int));
            }
        }
        assert forall|x: int, y: int| self.in_grid(x, y) && #[trigger] m1.at(x, y) != 0 implies {
            &&& m1.at(x, y) <= q1.len()
            &&& q1[m1.at(x, y) - 1].0 == x
            &&& q1[m1.at(x, y) - 1].1 == y
        } by {
            if x != r2 || y != c2 {
                assert(crate::grid::in_bounds(m0.side(), x, y));
                assert(m0.at(x, y) != 0);
                assert(q1[m0.at(x, y) - 1] == q0[m0.at(x, y) - 1]);
            }
        }
        assert forall|x: int, y: int| self.in_grid(x, y) && #[trigger] m0.at(x, y) != 0 implies m1.at(x, y) != 0 by {
            assert(crate::grid::in_bounds(m0.side(), x, y));
        }
    }

    proof fn lemma_search_entry(&self, origin: (usize, usize), mark: Grid<usize>, queue: Seq<(usize, usize)>, k: int)
        requires
            self.search_ok(origin, mark, queue),
            0 <= k < queue.len(),
        ensures
            self.in_grid(queue[k].0 as int, queue[k].1 as int),
            mark.at(queue[k].0 as int, queue[k].1 as int) == k + 1,
            self.in_flood((origin.0 as int, origin.1 as int), queue[k].0 as int, queue[k].1 as int),
    {
        reveal(Board::search_links);
    }

    /// Finds the neighbours of `(r, c)` when it is a zero cell of the flood.
    fn expand(&self, origin: (usize, usize), mark: &mut Grid<usize>, queue: &mut Vec<(usize, usize)>, r: usize, c: usize)
        requires
            self.wf(),
            self.search_ok(origin, *old(mark), old(queue)@),
            self.in_grid(r as int, c as int),
            self.in_flood((origin.0 as int, origin.1 as int), r as int, c as int),
        ensures
            self.search_ok(origin, *final(mark), final(queue)@),
            old(queue)@.len() <= final(queue)@.len(),
            forall|k: int| 0 <= k < old(queue)@.len() ==> #[trigger] final(queue)@[k] == old(queue)@[k],
            forall|x: int, y: int|
                self.in_grid(x, y) && #[trigger] old(mark).at(x, y) != 0 ==> final(mark).at(x, y) != 0,
            self.is_zero(r as int, c as int) ==> forall|x: int, y: int|
                #[trigger] adjacent(self.n(), r as int, c as int, x, y) ==> final(mark).at(x, y) != 0,
    {
        if self.hazard_at(r, c) || self.count_neighbors_at((r, c)) != 0 {
            return;
        }
        proof {
            self.lemma_flood_zero_in_region((origin.0 as int, origin.1 as int), r as int, c as int);
        }
        let ghost m0 = *mark;
        self.discover(origin, mark, queue, r, c, 0, 0);
        let ghost m1 = *mark;
        self.discover(origin, mark, queue, r, c, 0, 1);
        let ghost m2 = *mark;
        self.discover(origin, mark, queue, r, c, 0, 2);
        let ghost m3 = *mark;
        self.discover(origin, mark, queue, r, c, 1, 0);
        let ghost m4 = *mark;
        self.discover(origin, mark, queue, r, c, 1, 2);
        let ghost m5 = *mark;
        self.discover(origin, mark, queue, r, c, 2, 0);
        let ghost m6 = *mark;
        self.discover(origin, mark, queue, r, c, 2, 1);
        let ghost m7 = *mark;
        self.discover(origin, mark, queue, r, c, 2, 2);
        proof {
            assert forall|x: int, y: int| #[trigger] adjacent(self.n(), r as int, c as int, x, y) implies mark.at(x, y) != 0 by {
                if m1.at(x, y) != 0 {
                    assert(m2.at(x, y) != 0);
                }
                if m2.at(x, y) != 0 {
                    assert(m3.at(x, y) != 0);
                }
                if m3.at(x, y) != 0 {
                    assert(m4.at(x, y) != 0);
                }
                if m4.at(x, y) != 0 {
                    assert(m5.at(x, y) != 0);
                }
                if m5.at(x, y) != 0 {
                    assert(m6.at(x, y) != 0);
                }
                if m6.at(x, y) != 0 {
                    assert(m7.at(x, y) != 0);
                }
                if m7.at(x, y) != 0 {
                    assert(mark.at(x, y) != 0);
                }
            }
        }
    }

    /// The cells a flood from the zero cell `origin` visits: `origin` first,
    /// then every other cell of the flood, each exactly once. Hazards are
    /// never visited, and the walk ends after at most one visit per cell of
    /// the grid.
    pub fn flood_order(&self, origin: (usize, usize)) -> (order: Vec<(usize, usize)>)
        requires
            self.wf(),
            self.is_zero(origin.0 as int, origin.1 as int),
        ensures
            order@.len() >= 1,
            order@[0] == origin,
            order@.no_duplicates(),
            order@.len() <= self.n() * self.n(),
            forall|k: int|
                0 <= k < order@.len() ==> self.in_grid(#[trigger] order@[k].0 as int, order@[k].1 as int)
                    && !self.hazard(order@[k].0 as int, order@[k].1 as int),
            forall|r: int, c: int|
                self.in_grid(r, c) ==> (#[trigger] listed(order@, order@.len() as int, r, c) <==> self.in_flood(
                    (origin.0 as int, origin.1 as int),
                    r,
                    c,
                )),
    {
        let ghost o = (origin.0 as int, origin.1 as int);
        let n = self.size();
        let mut mark: Grid<usize> = Grid::new(n, 0);
        let mut queue: Vec<(usize, usize)> = Vec::new();
        proof {
            self.lemma_origin_in_region(o);
            assert(self.in_flood(o, o.0, o.1));
            assert(1 <= n * n) by (nonlinear_arith)
                requires
                    1 <= n,
            ;
        }
        mark.set(origin.0, origin.1, 1);
        queue.push(origin);
        proof {
            reveal(Board::search_links);
        }
        let mut head: usize = 0;
        while head < queue.len()
            invariant
                self.wf(),
                n == self.n(),
                self.is_zero(o.0, o.1),
                o == (origin.0 as int, origin.1 as int),
                self.search_ok(origin, mark, queue@),
                head <= queue@.len(),
                forall|k: int, r2: int, c2: int|
                    #![trigger queue@[k], adjacent(n as int, queue@[k].0 as int, queue@[k].1 as int, r2, c2)]
                    0 <= k < head && self.is_zero(queue@[k].0 as int, queue@[k].1 as int) && adjacent(
                        n as int,
                        queue@[k].0 as int,
                        queue@[k].1 as int,
                        r2,
                        c2,
                    ) ==> mark.at(r2, c2) != 0,
            decreases n * n - head,
        {
            let (r, c) = queue[head];
            proof {
                self.lemma_search_entry(origin, mark, queue@, head as int);
            }
            let ghost q0 = queue@;
            let ghost m0 = mark;
            self.expand(origin, &mut mark, &mut queue, r, c);
            proof {
                assert forall|k: int, r2: int, c2: int|
                    #![trigger queue@[k], adjacent(n as int, queue@[k].0 as int, queue@[k].1 as int, r2, c2)]
                    0 <= k < head + 1 && self.is_zero(queue@[k].0 as int, queue@[k].1 as int) && adjacent(
                        n as int,
                        queue@[k].0 as int,
                        queue@[k].1 as int,
                        r2,
                        c2,
                    ) implies mark.at(r2, c2) != 0 by {
                    assert(queue@[k] == q0[k]);
                    if k < head {
                        assert(m0.at(r2, c2) != 0);
                    }
                }
            }
            head = head + 1;
        }
        proof {
            reveal(Board::search_links);
            let found = |r: int, c: int| self.in_grid(r, c) && mark.at(r, c) != 0;
            assert forall|r: int, c: int| self.in_grid(r, c) implies (#[trigger] listed(queue@, queue@.len() as int, r, c)
                <==> self.in_flood(o, r, c)) by {
                if listed(queue@, queue@.len() as int, r, c) {
                    let j = choose|j: int| 0 <= j < queue@.len() && j < queue@.len() && #[trigger] queue@[j].0 == r && queue@[j].1 == c;
                    assert(self.in_flood(o, queue@[j].0 as int, queue@[j].1 as int));
                }
                if self.in_flood(o, r, c) {
                    assert forall|r1: int, c1: int, r2: int, c2: int|
                        #![trigger found(r1, c1), adjacent(self.n(), r1, c1, r2, c2)]
                        found(r1, c1) && self.is_zero(r1, c1) && adjacent(self.n(), r1, c1, r2, c2) implies found(r2, c2) by {
                        let k = mark.at(r1, c1) - 1;
                        assert(queue@[k].0 == r1 && queue@[k].1 == c1);
                    }
                    assert(found(o.0, o.1));
                    if self.in_zero_region(o, r, c) {
                        self.lemma_region_closed(o, found, r, c);
                    } else {
                        let p = choose|p: (int, int)|
                            self.in_zero_region(o, p.0, p.1) && #[trigger] adjacent(self.n(), p.0, p.1, r, c);
                        self.lemma_region_closed(o, found, p.0, p.1);
                        assert(self.is_zero(p.0, p.1)) by {
                            let path = choose|path: Seq<(int, int)>|
                                #![trigger self.zero_path(path)]
                                path.len() > 0 && path[0] == o && path.last() == (p.0, p.1) && self.zero_path(path);
                            assert(self.is_zero(path[path.len() - 1].0, path[path.len() - 1].1));
                        }
                    }
                    let k = mark.at(r, c) - 1;
                    assert(queue@[k].0 == r && queue@[k].1 == c);
                }
            }
            assert forall|i: int, j: int| 0 <= i < queue@.len() && 0 <= j < queue@.len() && i != j
                implies queue@[i] != queue@[j] by {
                assert(mark.at(queue@[i].0 as int, queue@[i].1 as int) == i + 1);
                assert(mark.at(queue@[j].0 as int, queue@[j].1 as int) == j + 1);
            }
            assert forall|k: int| 0 <= k < queue@.len() implies self.in_grid(#[trigger] queue@[k].0 as int, queue@[k].1 as int)
                && !self.hazard(queue@[k].0 as int, queue@[k].1 as int) by {
                self.lemma_flood_is_safe(o, queue@[k].0 as int, queue@[k].1 as int);
            }
        }
        queue
    }

    /// Uncovers the flood around the cursor, which must be a zero cell: every
    /// unrevealed cell of the zero region of the cursor, and of its border,
    /// now shows its hazard count. The cursor cell itself is left to the
    /// caller; it, flagged and already revealed cells, and every cell outside
    /// the flood stay as they were.
    pub fn flood_empty(&mut self)
        requires
            old(self).wf(),
            old(self).is_zero(old(self).cursor().0, old(self).cursor().1),
        ensures
            final(self).wf(),
            final(self).same_layout(old(self)),
            final(self).cursor() == old(self).cursor(),
            forall|r: int, c: int|
                old(self).in_grid(r, c) && old(self).hazard(r, c) ==> #[trigger] final(self).state(r, c) == old(self).state(r, c),
            forall|r: int, c: int|
                old(self).in_grid(r, c) ==> #[trigger] final(self).state(r, c) == if old(self).in_flood(
                    old(self).cursor(),
                    r,
                    c,
                ) && (r, c) != old(self).cursor() && old(self).state(r, c) == State::Unrevealed {
                    State::Revealed(old(self).hazard_count(r, c) as u8)
                } else {
                    old(self).state(r, c)
                },
    {
        let ghost before = *self;
        let origin = self.position();
        let order = self.flood_order(origin);
        proof {
            assert forall|r: int, c: int| #[trigger] listed(order@, 1, r, c) implies (r, c) == before.cursor() by {
                let j = choose|j: int| 0 <= j < 1 && j < order@.len() && #[trigger] order@[j].0 == r && order@[j].1 == c;
                assert(j == 0);
            }
        }
        let mut k: usize = 1;
        while k < order.len()
            invariant
                1 <= k,
                order@[0] == origin,
                order@.no_duplicates(),
                (origin.0 as int, origin.1 as int) == before.cursor(),
                self.wf(),
                self.same_layout(&before),
                self.cursor() == before.cursor(),
                before.wf(),
                k <= order@.len(),
                forall|j: int|
                    0 <= j < order@.len() ==> before.in_grid(#[trigger] order@[j].0 as int, order@[j].1 as int)
                        && !before.hazard(order@[j].0 as int, order@[j].1 as int),
                forall|r: int, c: int|
                    before.in_grid(r, c) ==> #[trigger] self.state(r, c) == if listed(order@, k as int, r, c)
                        && (r, c) != before.cursor() && before.state(r, c) == State::Unrevealed {
                        State::Revealed(before.hazard_count(r, c) as u8)
                    } else {
                        before.state(r, c)
                    },
            decreases order@.len() - k,
        {
            let (r, c) = order[k];
            let ghost mid = *self;
            proof {
                assert(order@[k as int] != order@[0]);
                assert(before.in_grid(order@[k as int].0 as int, order@[k as int].1 as int));
                before.lemma_count_same_layout(self, r as int, c as int);
            }
            if self.state_at(r, c) == State::Unrevealed {
                let count = self.count_neighbors_at((r, c));
                self.set_state(r, c, State::Revealed(count));
            }
            proof {
                assert(order@[k as int].0 == r && order@[k as int].1 == c);
                assert forall|r2: int, c2: int| before.in_grid(r2, c2) implies #[trigger] self.state(r2, c2) == if listed(
                    order@,
                    k + 1,
                    r2,
                    c2,
                ) && (r2, c2) != before.cursor() && before.state(r2, c2) == State::Unrevealed {
                    State::Revealed(before.hazard_count(r2, c2) as u8)
                } else {
                    before.state(r2, c2)
                } by {
                    assert(mid.state(r2, c2) == if listed(order@, k as int, r2, c2) && (r2, c2) != before.cursor()
                        && before.state(r2, c2) == State::Unrevealed {
                        State::Revealed(before.hazard_count(r2, c2) as u8)
                    } else {
                        before.state(r2, c2)
                    });
                    assert(mid.in_grid(r2, c2));
                    if r2 == r && c2 == c {
                        assert(listed(order@, k + 1, r2, c2));
                        assert(0 <= before.hazard_count(r2, c2) <= 8);
                        if mid.state(r2, c2) == State::Unrevealed {
                            assert(self.state(r2, c2) == State::Revealed(mid.hazard_count(r2, c2) as u8));
                        } else {
                            assert(self.state(r2, c2) == mid.state(r2, c2));
                        }
                    } else {
                        assert(self.state(r2, c2) == mid.state(r2, c2));
                        if listed(order@, k + 1, r2, c2) {
                            let j = choose|j: int| 0 <= j < k + 1 && j < order@.len() && #[trigger] order@[j].0 == r2 && order@[j].1 == c2;
                            assert(j != k);
                            assert(listed(order@, k as int, r2, c2));
                        }
                    }
                }
            }
            k = k + 1;
        }
        proof {
            assert forall|r: int, c: int| before.in_grid(r, c) implies #[trigger] self.state(r, c) == if before.in_flood(
                before.cursor(),
                r,
                c,
            ) && (r, c) != before.cursor() && before.state(r, c) == State::Unrevealed {
                State::Revealed(before.hazard_count(r, c) as u8)
            } else {
                before.state(r, c)
            } by {
                assert(listed(order@, order@.len() as int, r, c) == before.in_flood(before.cursor(), r, c));
                if before.in_flood(before.cursor(), r, c) {
                    before.lemma_flood_is_safe(before.cursor(), r, c);
                }
            }
        }
    }

    /// Boards with the same layout have the same floods.
    pub proof fn lemma_flood_same_layout(&self, other: &Board, origin: (int, int), r: int, c: int)
        requires
            self.same_layout(other),
        ensures
            self.in_flood(origin, r, c) == other.in_flood(origin, r, c),
    {
        assert forall|x: int, y: int| #[trigger] self.is_zero(x, y) == other.is_zero(x, y) by {
            self.lemma_count_same_layout(other, x, y);
        }
        assert forall|path: Seq<(int, int)>| #[trigger] self.zero_path(path) == other.zero_path(path) by {
            if self.zero_path(path) {
                assert forall|i: int| 0 <= i < path.len() implies other.is_zero(#[trigger] path[i].0, path[i].1) by {
                    assert(self.is_zero(path[i].0, path[i].1));
                }
            }
            if other.zero_path(path) {
                assert forall|i: int| 0 <= i < path.len() implies self.is_zero(#[trigger] path[i].0, path[i].1) by {
                    assert(other.is_zero(path[i].0, path[i].1));
                }
            }
        }
        assert forall|x: int, y: int| #[trigger] self.in_zero_region(origin, x, y) == other.in_zero_region(origin, x, y) by {
            if self.in_zero_region(origin, x, y) {
                let path = choose|path: Seq<(int, int)>|
                    #![trigger self.zero_path(path)]
                    path.len() > 0 && path[0] == origin && path.last() == (x, y) && self.zero_path(path);
                assert(other.zero_path(path));
            }
            if other.in_zero_region(origin, x, y) {
                let path = choose|path: Seq<(int, int)>|
                    #![trigger other.zero_path(path)]
                    path.len() > 0 && path[0] == origin && path.last() == (x, y) && other.zero_path(path);
                assert(self.zero_path(path));
            }
        }
        if self.in_flood(origin, r, c) && !self.in_zero_region(origin, r, c) {
            let p = choose|p: (int, int)| self.in_zero_region(origin, p.0, p.1) && #[trigger] adjacent(self.n(), p.0, p.1, r, c);
            assert(other.in_zero_region(origin, p.0, p.1));
        }
        if other.in_flood(origin, r, c) && !other.in_zero_region(origin, r, c) {
            let p = choose|p: (int, int)| other.in_zero_region(origin, p.0, p.1) && #[trigger] adjacent(other.n(), p.0, p.1, r, c);
            assert(self.in_zero_region(origin, p.0, p.1));
        }
    }

    /// A set of cells that holds `origin` and, with each zero cell, all its
    /// neighbours, holds the whole zero region of `origin`.
    pub proof fn lemma_region_closed(&self, origin: (int, int), s: spec_fn(int, int) -> bool, r: int, c: int)
        requires
            s(origin.0, origin.1),
            forall|r1: int, c1: int, r2: int, c2: int|
                #![trigger s(r1, c1), adjacent(self.n(), r1, c1, r2, c2)]
                s(r1, c1) && self.is_zero(r1, c1) && adjacent(self.n(), r1, c1, r2, c2) ==> s(r2, c2),
            self.in_zero_region(origin, r, c),
        ensures
            s(r, c),
    {
        let path = choose|path: Seq<(int, int)>|
            #![trigger self.zero_path(path)]
            path.len() > 0 && path[0] == origin && path.last() == (r, c) && self.zero_path(path);
        self.lemma_closed_along_path(origin, s, path, path.len() - 1);
    }
}

} // verus!
