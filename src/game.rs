//! Player commands, their effect on the board, and the win condition.

use vstd::prelude::*;
use crate::board::{Board, State};

verus! {

/// One player command, already decoded from the keyboard.
#[derive(Clone, Copy, Debug, PartialEq, Eq, Structural)]
pub enum Command {
    MoveUp,
    MoveDown,
    MoveLeft,
    MoveRight,
    Reveal,
    ToggleFlag,
    Quit,
    /// Any key that means nothing to the game.
    Invalid,
}

/// What the game loop should do after a command.
#[derive(Clone, Copy, Debug, PartialEq, Eq, Structural)]
pub enum Signal {
    /// The turn is over; draw the board and read the next command.
    Continue,
    /// A hazard was revealed: the game is lost.
    Loss,
    /// The player quit: stop without a verdict.
    Terminate,
    /// The command meant nothing; read another without ending the turn.
    Invalid,
}

/// A flag toggle: unrevealed and flagged swap, anything else stays.
pub open spec fn toggled(s: State) -> State {
    match s {
        State::Unrevealed => State::Flagged,
        State::Flagged => State::Unrevealed,
        _ => s,
    }
}

impl Board {
    /// Every cell of `after` shows what it showed on `self`.
    pub open spec fn same_states(&self, after: &Board) -> bool {
        forall|r: int, c: int| self.in_grid(r, c) ==> #[trigger] after.state(r, c) == self.state(r, c)
    }

    /// `after` differs from `self` at most in cell `(r, c)`, which shows `s`.
    pub open spec fn only_cell_changed(&self, after: &Board, r: int, c: int, s: State) -> bool {
        forall|r2: int, c2: int|
            self.in_grid(r2, c2) ==> #[trigger] after.state(r2, c2) == if r2 == r && c2 == c {
                s
            } else {
                self.state(r2, c2)
            }
    }

    /// `after` is `self` with the flood from `origin` uncovered.
    pub open spec fn flooded(&self, after: &Board, origin: (int, int)) -> bool {
        forall|r: int, c: int|
            self.in_grid(r, c) ==> #[trigger] after.state(r, c) == if self.in_flood(origin, r, c) && self.state(r, c)
                == State::Unrevealed {
                State::Revealed(self.hazard_count(r, c) as u8)
            } else {
                self.state(r, c)
            }
    }

    /// The cells of `after` after revealing the cursor cell of `self`: only an
    /// unrevealed cell reacts; a hazard explodes, a zero cell floods, any
    /// other safe cell shows its count.
    pub open spec fn after_reveal(&self, after: &Board) -> bool {
        let (r, c) = self.cursor();
        if self.state(r, c) != State::Unrevealed {
            self.same_states(after)
        } else if self.hazard(r, c) {
            self.only_cell_changed(after, r, c, State::Exploded)
        } else if self.hazard_count(r, c) == 0 {
            self.flooded(after, (r, c))
        } else {
            self.only_cell_changed(after, r, c, State::Revealed(self.hazard_count(r, c) as u8))
        }
    }

    /// The cells of `after` after a flag toggle on the cursor cell of `self`.
    pub open spec fn after_toggle(&self, after: &Board) -> bool {
        self.only_cell_changed(after, self.cursor().0, self.cursor().1, toggled(self.state(self.cursor().0, self.cursor().1)))
    }

    /// The signal a reveal of the cursor cell gives.
    pub open spec fn reveal_signal(&self) -> Signal {
        if self.state(self.cursor().0, self.cursor().1) == State::Unrevealed && self.hazard(self.cursor().0, self.cursor().1) {
            Signal::Loss
        } else {
            Signal::Continue
        }
    }

    /// The cursor after `cmd`: one step in the direction of a move, clamped to
    /// the grid; unchanged by any other command.
    pub open spec fn cursor_after(&self, cmd: Command) -> (int, int) {
        let (r, c) = self.cursor();
        match cmd {
            Command::MoveUp => (if r > 0 { r - 1 } else { r }, c),
            Command::MoveDown => (if r < self.n() - 1 { r + 1 } else { r }, c),
            Command::MoveLeft => (r, if c > 0 { c - 1 } else { c }),
            Command::MoveRight => (r, if c < self.n() - 1 { c + 1 } else { c }),
            _ => (r, c),
        }
    }

    /// The signal that `cmd` gives.
    pub open spec fn signal_after(&self, cmd: Command) -> Signal {
        match cmd {
            Command::Reveal => self.reveal_signal(),
            Command::Quit => Signal::Terminate,
            Command::Invalid => Signal::Invalid,
            _ => Signal::Continue,
        }
    }

    /// Every safe cell has been revealed.
    pub open spec fn is_won(&self) -> bool {
        forall|r: int, c: int| self.in_grid(r, c) && !self.hazard(r, c) ==> (#[trigger] self.state(r, c) is Revealed)
    }

    /// The game is won exactly when no safe cell is still unrevealed or
    /// flagged: a flag on a safe cell never counts toward a win.
    pub proof fn lemma_won_iff_no_hidden_safe_cell(&self)
        requires
            self.wf(),
        ensures
            self.is_won() <==> !exists|r: int, c: int|
                self.in_grid(r, c) && !self.hazard(r, c) && (#[trigger] self.state(r, c) == State::Unrevealed
                    || self.state(r, c) == State::Flagged),
    {
        if !self.is_won() {
            let (r, c) = choose|r: int, c: int| self.in_grid(r, c) && !self.hazard(r, c) && !(#[trigger] self.state(r, c) is Revealed);
            assert(self.state_fits(r, c, self.state(r, c)));
            assert(self.state(r, c) == State::Unrevealed || self.state(r, c) == State::Flagged);
        }
    }

    /// Toggling the flag twice on the same cell restores every cell.
    pub proof fn lemma_toggle_twice(b0: &Board, b1: &Board, b2: &Board)
        requires
            b0.wf(),
            b1.same_layout(b0),
            b1.cursor() == b0.cursor(),
            b0.after_toggle(b1),
            b1.after_toggle(b2),
        ensures
            b0.same_states(b2),
    {
        let (r, c) = b0.cursor();
        assert forall|r2: int, c2: int| b0.in_grid(r2, c2) implies #[trigger] b2.state(r2, c2) == b0.state(r2, c2) by {
            assert(b1.in_grid(r2, c2));
            assert(b1.state(r2, c2) == if r2 == r && c2 == c { toggled(b0.state(r, c)) } else { b0.state(r2, c2) });
        }
    }

    /// Toggling the flag on a revealed cell changes nothing.
    pub proof fn lemma_toggle_revealed_is_noop(b0: &Board, b1: &Board)
        requires
            b0.state(b0.cursor().0, b0.cursor().1) is Revealed,
            b0.after_toggle(b1),
        ensures
            b0.same_states(b1),
    {
    }

    /// Reveals the cell under the cursor. A hazard explodes and the game is
    /// lost; a safe cell shows its hazard count, and a cell with no hazard
    /// around it floods. A cell that is not unrevealed is left alone.
    pub fn evaluate_cell(&mut self) -> (sig: Signal)
        requires
            old(self).wf(),
        ensures
            final(self).wf(),
            final(self).same_layout(old(self)),
            final(self).cursor() == old(self).cursor(),
            old(self).after_reveal(final(self)),
            sig == old(self).reveal_signal(),
    {
        let (r, c) = self.position();
        if self.state_at(r, c) != State::Unrevealed {
            return Signal::Continue;
        }
        if self.hazard_at(r, c) {
            self.set_state(r, c, State::Exploded);
            return Signal::Loss;
        }
        let count = self.count_neighbors_at((r, c));
        let ghost before = *self;
        self.set_state(r, c, State::Revealed(count));
        if count == 0 {
            let ghost mid = *self;
            proof {
                before.lemma_count_same_layout(&mid, r as int, c as int);
            }
            self.flood_empty();
            proof {
                assert forall|r2: int, c2: int| before.in_grid(r2, c2) implies #[trigger] self.state(r2, c2)
                    == if before.in_flood((r as int, c as int), r2, c2) && before.state(r2, c2) == State::Unrevealed {
                    State::Revealed(before.hazard_count(r2, c2) as u8)
                } else {
                    before.state(r2, c2)
                } by {
                    before.lemma_count_same_layout(&mid, r2, c2);
                    before.lemma_flood_same_layout(&mid, (r as int, c as int), r2, c2);
                    if r2 == r as int && c2 == c as int {
                        before.lemma_origin_in_region((r as int, c as int));
                    }
                }
            }
        }
        Signal::Continue
    }

    /// Applies one command: a move shifts the cursor one cell, clamped to the
    /// grid; a reveal acts as `evaluate_cell`; a flag toggle swaps an
    /// unrevealed and a flagged cursor cell; quitting and an invalid command
    /// change nothing. Returns the signal for the game loop.
    pub fn player_action(&mut self, cmd: Command) -> (sig: Signal)
        requires
            old(self).wf(),
        ensures
            final(self).wf(),
            final(self).same_layout(old(self)),
            final(self).cursor() == old(self).cursor_after(cmd),
            sig == old(self).signal_after(cmd),
            cmd == Command::Reveal ==> old(self).after_reveal(final(self)),
            cmd == Command::ToggleFlag ==> old(self).after_toggle(final(self)),
            cmd != Command::Reveal && cmd != Command::ToggleFlag ==> old(self).same_states(final(self)),
    {
        let (r, c) = self.position();
        let n = self.size();
        match cmd {
            Command::MoveUp => {
                if r > 0 {
                    self.set_cursor(r - 1, c);
                }
                Signal::Continue
            },
            Command::MoveDown => {
                if r + 1 < n {
                    self.set_cursor(r + 1, c);
                }
                Signal::Continue
            },
            Command::MoveLeft => {
                if c > 0 {
                    self.set_cursor(r, c - 1);
                }
                Signal::Continue
            },
            Command::MoveRight => {
                if c + 1 < n {
                    self.set_cursor(r, c + 1);
                }
                Signal::Continue
            },
            Command::Reveal => self.evaluate_cell(),
            Command::ToggleFlag => {
                match self.state_at(r, c) {
                    State::Unrevealed => self.set_state(r, c, State::Flagged),
                    State::Flagged => self.set_state(r, c, State::Unrevealed),
                    _ => {},
                }
                Signal::Continue
            },
            Command::Quit => Signal::Terminate,
            Command::Invalid => Signal::Invalid,
        }
    }

    /// Whether every safe cell has been revealed, so that the game is won.
    pub fn game_finished(&self) -> (won: bool)
        requires
            self.wf(),
        ensures
            won == self.is_won(),
    {
        let n = self.size();
        let mut i: usize = 0;
        while i < n
            invariant
                self.wf(),
                n == self.n(),
                i <= n,
                forall|r: int, c: int|
                    0 <= r < i && 0 <= c < n && !self.hazard(r, c) ==> (#[trigger] self.state(r, c) is Revealed),
            decreases n - i,
        {
            let mut j: usize = 0;
            while j < n
                invariant
                    self.wf(),
                    n == self.n(),
                    i < n,
                    j <= n,
                    forall|r: int, c: int|
                        (0 <= r < i && 0 <= c < n || r == i && 0 <= c < j) && !self.hazard(r, c)
                            ==> (#[trigger] self.state(r, c) is Revealed),
                decreases n - j,
            {
                if !self.hazard_at(i, j) {
                    match self.state_at(i, j) {
                        State::Revealed(_) => {},
                        _ => {
                            return false;
                        },
                    }
                }
                j = j + 1;
            }
            i = i + 1;
        }
        true
    }
}

} // verus!
