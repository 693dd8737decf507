//! The board: hazard layout, visible cell states and cursor, with the
//! invariant that ties revealed cells to the layout.

use vstd::prelude::*;
use crate::grid::{in_bounds, Grid};

verus! {

/// Side length of the grid in the standard game.
pub const SIZE: usize = 20;

/// What the player sees of one cell.
#[derive(Clone, Copy, Debug, PartialEq, Eq, Structural)]
pub enum State {
    Unrevealed,
    /// Revealed, showing how many neighbouring cells hold a hazard.
    Revealed(u8),
    Flagged,
    /// The hazard cell whose reveal ended the game.
    Exploded,
}

/// A square grid of hidden hazards, what the player has uncovered of it,
/// and the cursor.
pub struct Board {
    mines: Grid<bool>,
    cells: Grid<State>,
    position: (usize, usize),
}

impl Board {
    /// Side length of the grid.
    pub closed spec fn n(&self) -> int {
        self.mines.side()
    }

    /// Whether cell `(r, c)` holds a hazard.
    pub closed spec fn hazard(&self, r: int, c: int) -> bool {
        self.mines.at(r, c)
    }

    /// The visible state of cell `(r, c)`.
    pub closed spec fn state(&self, r: int, c: int) -> State {
        self.cells.at(r, c)
    }

    /// The cursor as (row, column).
    pub closed spec fn cursor(&self) -> (int, int) {
        (self.position.0 as int, self.position.1 as int)
    }

    /// The two layers have the side length of the board.
    pub closed spec fn storage_ok(&self) -> bool {
        &&& self.mines.wf()
        &&& self.cells.wf()
        &&& self.cells.side() == self.mines.side()
    }

    pub open spec fn in_grid(&self, r: int, c: int) -> bool {
        in_bounds(self.n(), r, c)
    }

    /// Every revealed cell is safe and shows its hazard count; only a hazard
    /// can have exploded.
    pub open spec fn cells_consistent(&self) -> bool {
        forall|r: int, c: int| self.in_grid(r, c) ==> self.state_fits(r, c, #[trigger] self.state(r, c))
    }

    /// State `s` may stand on cell `(r, c)`: a revealed cell is safe and
    /// shows its hazard count, an exploded one holds a hazard.
    pub open spec fn state_fits(&self, r: int, c: int, s: State) -> bool {
        &&& (s is Revealed ==> !self.hazard(r, c) && s->Revealed_0 == self.hazard_count(r, c))
        &&& (s is Exploded ==> self.hazard(r, c))
    }

    /// Whether a state fits a cell depends on the layout alone.
    pub proof fn lemma_fits_same_layout(&self, other: &Board)
        requires
            self.same_layout(other),
        ensures
            forall|r: int, c: int, s: State|
                self.in_grid(r, c) ==> self.state_fits(r, c, s) == #[trigger] other.state_fits(r, c, s),
    {
        assert forall|r: int, c: int, s: State|
            self.in_grid(r, c) implies self.state_fits(r, c, s) == #[trigger] other.state_fits(r, c, s) by {
            self.lemma_count_same_layout(other, r, c);
        }
    }

    pub open spec fn wf(&self) -> bool {
        &&& self.storage_ok()
        &&& 0 < self.n()
        &&& self.n() * self.n() <= usize::MAX
        &&& self.in_grid(self.cursor().0, self.cursor().1)
        &&& self.cells_consistent()
    }

    /// Same side length and the same hazards on every cell.
    pub open spec fn same_layout(&self, other: &Board) -> bool {
        &&& self.n() == other.n()
        &&& forall|r: int, c: int| self.in_grid(r, c) ==> #[trigger] self.hazard(r, c) == other.hazard(r, c)
    }

    /// No cell has been revealed and none has exploded.
    pub open spec fn untouched(&self) -> bool {
        forall|r: int, c: int|
            self.in_grid(r, c) ==> (#[trigger] self.state(r, c) is Unrevealed || self.state(r, c) is Flagged)
    }

    /// An empty board of side `size`: no hazards, every cell unrevealed,
    /// the cursor in the top-left corner.
    pub fn new(size: usize) -> (b: Board)
        requires
            0 < size,
            size * size <= usize::MAX,
        ensures
            b.wf(),
            b.n() == size,
            b.cursor() == (0int, 0int),
            forall|r: int, c: int| b.in_grid(r, c) ==> !#[trigger] b.hazard(r, c),
            forall|r: int, c: int| b.in_grid(r, c) ==> #[trigger] b.state(r, c) == State::Unrevealed,
    {
        Board { mines: Grid::new(size, false), cells: Grid::new(size, State::Unrevealed), position: (0, 0) }
    }

    /// Side length of the grid.
    pub fn size(&self) -> (s: usize)
        requires
            self.wf(),
        ensures
            s == self.n(),
    {
        self.mines.side_len()
    }

    /// The cursor as (row, column).
    pub fn position(&self) -> (p: (usize, usize))
        ensures
            p.0 == self.cursor().0,
            p.1 == self.cursor().1,
    {
        self.position
    }

    /// Moves the cursor to `(r, c)` when that cell is on the grid; otherwise
    /// leaves the board as it is and returns false.
    pub fn set_position(&mut self, r: usize, c: usize) -> (moved: bool)
        requires
            old(self).wf(),
        ensures
            final(self).wf(),
            moved == old(self).in_grid(r as int, c as int),
            final(self).same_layout(old(self)),
            old(self).same_states(final(self)),
            final(self).cursor() == if moved { (r as int, c as int) } else { old(self).cursor() },
    {
        if r < self.size() && c < self.size() {
            self.set_cursor(r, c);
            true
        } else {
            false
        }
    }

    /// The state of cell `(r, c)`, or `None` off the grid.
    pub fn cell(&self, r: usize, c: usize) -> (s: Option<State>)
        requires
            self.wf(),
        ensures
            s == if self.in_grid(r as int, c as int) { Some(self.state(r as int, c as int)) } else { None::<State> },
    {
        if r < self.size() && c < self.size() {
            Some(self.cells.get(r, c))
        } else {
            None
        }
    }

    /// Whether cell `(r, c)` holds a hazard, or `None` off the grid.
    pub fn is_hazard(&self, r: usize, c: usize) -> (h: Option<bool>)
        requires
            self.wf(),
        ensures
            h == if self.in_grid(r as int, c as int) { Some(self.hazard(r as int, c as int)) } else { None::<bool> },
    {
        if r < self.size() && c < self.size() {
            Some(self.mines.get(r, c))
        } else {
            None
        }
    }

    pub(crate) fn state_at(&self, r: usize, c: usize) -> (s: State)
        requires
            self.wf(),
            self.in_grid(r as int, c as int),
        ensures
            s == self.state(r as int, c as int),
    {
        self.cells.get(r, c)
    }

    pub(crate) fn hazard_at(&self, r: usize, c: usize) -> (h: bool)
        requires
            self.wf(),
            self.in_grid(r as int, c as int),
        ensures
            h == self.hazard(r as int, c as int),
    {
        self.mines.get(r, c)
    }

    /// Writes the state of one cell; the new state must agree with the layout.
    pub(crate) fn set_state(&mut self, r: usize, c: usize, s: State)
        requires
            old(self).wf(),
            old(self).in_grid(r as int, c as int),
            old(self).state_fits(r as int, c as int, s),
        ensures
            final(self).wf(),
            final(self).same_layout(old(self)),
            final(self).cursor() == old(self).cursor(),
            forall|r2: int, c2: int|
                old(self).in_grid(r2, c2) ==> #[trigger] final(self).state(r2, c2) == if r2 == r && c2 == c {
                    s
                } else {
                    old(self).state(r2, c2)
                },
    {
        self.cells.set(r, c, s);
        proof {
            old(self).lemma_fits_same_layout(self);
            assert forall|r2: int, c2: int| self.in_grid(r2, c2) implies self.state_fits(r2, c2, #[trigger] self.state(r2, c2)) by {
                assert(old(self).state_fits(r2, c2, old(self).state(r2, c2)));
            }
        }
    }

    /// Sets the hazard flag of one cell of a board that has nothing revealed.
    pub(crate) fn set_hazard(&mut self, r: usize, c: usize, h: bool)
        requires
            old(self).wf(),
            old(self).untouched(),
            old(self).in_grid(r as int, c as int),
        ensures
            final(self).wf(),
            final(self).untouched(),
            final(self).n() == old(self).n(),
            final(self).cursor() == old(self).cursor(),
            old(self).same_states(final(self)),
            forall|r2: int, c2: int|
                old(self).in_grid(r2, c2) ==> #[trigger] final(self).hazard(r2, c2) == if r2 == r && c2 == c {
                    h
                } else {
                    old(self).hazard(r2, c2)
                },
    {
        self.mines.set(r, c, h);
        assert forall|r2: int, c2: int| self.in_grid(r2, c2) implies
            (#[trigger] self.state(r2, c2) is Unrevealed || self.state(r2, c2) is Flagged) by {
            assert(old(self).state(r2, c2) is Unrevealed || old(self).state(r2, c2) is Flagged);
        }
    }

    /// Moves the cursor to a cell on the grid.
    pub(crate) fn set_cursor(&mut self, r: usize, c: usize)
        requires
            old(self).wf(),
            old(self).in_grid(r as int, c as int),
        ensures
            final(self).wf(),
            final(self).same_layout(old(self)),
            old(self).same_states(final(self)),
            final(self).cursor() == (r as int, c as int),
    {
        self.position = (r, c);
        proof {
            old(self).lemma_fits_same_layout(self);
            assert forall|r2: int, c2: int| self.in_grid(r2, c2) implies self.state_fits(r2, c2, #[trigger] self.state(r2, c2)) by {
                assert(old(self).state_fits(r2, c2, old(self).state(r2, c2)));
            }
        }
    }
}

} // verus!
