//! Hazard placement, from given draws or from the thread's random generator.

use vstd::prelude::*;
use rand::Rng;
use crate::board::Board;

verus! {

#[verifier::external_type_specification]
#[verifier::external_body]
pub struct ExThreadRng(rand::rngs::ThreadRng);

/// Relies on rand::thread_rng: the generator of the current thread. Nothing
/// is known of the numbers it gives.
pub assume_specification[ rand::thread_rng ]() -> rand::rngs::ThreadRng;

/// Relies on rand::Rng::gen_range: a number drawn from `0..bound`; it panics
/// on an empty range, which `requires` leaves out.
#[verifier::external_body]
fn draw_below(rng: &mut rand::rngs::ThreadRng, bound: usize) -> (r: usize)
    requires
        bound > 0,
    ensures
        r < bound,
{
    rng.gen_range(0..bound)
}

impl Board {
    /// Places hazards from one draw per cell: cell `(r, c)` becomes a hazard
    /// when `draws[r][c] < numerator`, and hazards already there stay.
    pub fn place_hazards(self, draws: &Vec<Vec<usize>>, numerator: usize) -> (b: Board)
        requires
            self.wf(),
            self.untouched(),
            draws@.len() == self.n(),
            forall|r: int| 0 <= r < self.n() ==> (#[trigger] draws@[r])@.len() == self.n(),
        ensures
            b.wf(),
            b.untouched(),
            b.n() == self.n(),
            b.cursor() == self.cursor(),
            self.same_states(&b),
            forall|r: int, c: int|
                self.in_grid(r, c) ==> #[trigger] b.hazard(r, c) == (self.hazard(r, c) || draws@[r]@[c] < numerator),
    {
        let ghost before = self;
        let mut b = self;
        let n = b.size();
        let mut i: usize = 0;
        while i < n
            invariant
                b.wf(),
                b.untouched(),
                before.wf(),
                n == b.n(),
                b.n() == before.n(),
                b.cursor() == before.cursor(),
                before.same_states(&b),
                i <= n,
                draws@.len() == n,
                forall|r: int| 0 <= r < n ==> (#[trigger] draws@[r])@.len() == n,
                forall|r: int, c: int|
                    b.in_grid(r, c) ==> #[trigger] b.hazard(r, c) == (before.hazard(r, c) || (r < i
                        && draws@[r]@[c] < numerator)),
            decreases n - i,
        {
            let mut j: usize = 0;
            while j < n
                invariant
                    b.wf(),
                    b.untouched(),
                    before.wf(),
                    n == b.n(),
                    b.n() == before.n(),
                    b.cursor() == before.cursor(),
                    before.same_states(&b),
                    i < n,
                    j <= n,
                    draws@.len() == n,
                    forall|r: int| 0 <= r < n ==> (#[trigger] draws@[r])@.len() == n,
                    forall|r: int, c: int|
                        b.in_grid(r, c) ==> #[trigger] b.hazard(r, c) == (before.hazard(r, c) || ((r < i || r
                            == i && c < j) && draws@[r]@[c] < numerator)),
                decreases n - j,
            {
                if draws[i][j] < numerator {
                    b.set_hazard(i, j, true);
                }
                j = j + 1;
            }
            i = i + 1;
        }
        b
    }

    /// Places hazards at random: each cell independently becomes a hazard
    /// with probability `numerator / denominator`; hazards already there stay.
    pub fn randomize(self, numerator: usize, denominator: usize) -> (b: Board)
        requires
            self.wf(),
            self.untouched(),
            denominator > 0,
        ensures
            b.wf(),
            b.untouched(),
            b.n() == self.n(),
            b.cursor() == self.cursor(),
            self.same_states(&b),
            forall|r: int, c: int| self.in_grid(r, c) && self.hazard(r, c) ==> #[trigger] b.hazard(r, c),
            numerator == 0 ==> forall|r: int, c: int| self.in_grid(r, c) ==> #[trigger] b.hazard(r, c) == self.hazard(r, c),
            numerator >= denominator ==> forall|r: int, c: int| self.in_grid(r, c) ==> #[trigger] b.hazard(r, c),
    {
        let n = self.size();
        let mut rng = rand::thread_rng();
        let mut draws: Vec<Vec<usize>> = Vec::new();
        while draws.len() < n
            invariant
                draws@.len() <= n,
                forall|r: int| 0 <= r < draws@.len() ==> (#[trigger] draws@[r])@.len() == n,
                forall|r: int, c: int| 0 <= r < draws@.len() && 0 <= c < n ==> #[trigger] draws@[r]@[c] < denominator,
                denominator > 0,
            decreases n - draws@.len(),
        {
            let mut row: Vec<usize> = Vec::new();
            while row.len() < n
                invariant
                    row@.len() <= n,
                    forall|c: int| 0 <= c < row@.len() ==> #[trigger] row@[c] < denominator,
                    denominator > 0,
                decreases n - row@.len(),
            {
                row.push(draw_below(&mut rng, denominator));
            }
            draws.push(row);
        }
        self.place_hazards(&draws, numerator)
    }
}

} // verus!
