//! Seeded pseudo-random draws, from a generator that is known by its state.

use vstd::prelude::*;

verus! {

/// What a generator in state `state` draws from `0..bound` where a `usize` has `width`
/// bits, and the state that it goes on with.
pub uninterp spec fn index_draw(state: u64, bound: usize, width: u32) -> (usize, u64);

/// Draws with `fastrand::Rng::usize` from `0..bound`. What is drawn is below `bound`; which
/// number it is, and the generator's next state, are named, not stated.
#[verifier::external_body]
pub(crate) fn draw_index(state: u64, bound: usize) -> (r: (usize, u64))
    requires
        bound > 0,
    ensures
        r == index_draw(state, bound, usize::BITS),
        r.0 < bound,
{
    let mut generator = fastrand::Rng::with_seed(state);
    let value: usize = generator.usize(0..bound);
    (value, generator.get_seed())
}

/// The state of a generator that was in `state` before `draws` draws from `0..bound`.
pub open spec fn state_after(state: u64, bound: usize, draws: nat) -> u64
    decreases draws,
{
    if draws == 0 {
        state
    } else {
        index_draw(state_after(state, bound, (draws - 1) as nat), bound, usize::BITS).1
    }
}

/// What such a generator draws next, after `draws` draws from `0..bound`.
pub open spec fn nth_draw(state: u64, bound: usize, draws: nat) -> usize {
    index_draw(state_after(state, bound, draws), bound, usize::BITS).0
}

/// A seeded generator.
#[derive(Clone, Copy, Debug, PartialEq, Eq, Structural)]
pub struct Rng {
    pub state: u64,
}

impl Rng {
    /// A generator that starts from `seed`.
    pub fn with_seed(seed: u64) -> (r: Rng)
        ensures
            r.state == seed,
    {
        Rng { state: seed }
    }

    /// A number from `0..bound`.
    pub fn index(&mut self, bound: usize) -> (r: usize)
        requires
            bound > 0,
        ensures
            r < bound,
            (r, final(self).state) == index_draw(old(self).state, bound, usize::BITS),
    {
        let (value, state) = draw_index(self.state, bound);
        self.state = state;
        value
    }

    /// The first number drawn from `0..bound` that is not `taken`; `None` where `tries` draws
    /// give nothing else.
    pub fn index_other_than(&mut self, bound: usize, taken: usize, tries: u64) -> (r: Option<usize>)
        requires
            bound > 0,
        ensures
            match r {
                Some(value) => value < bound && value != taken && exists|k: nat|
                    k < tries && #[trigger] nth_draw(old(self).state, bound, k) == value && (forall|
                        j: nat,
                    |
                        j < k ==> #[trigger] nth_draw(old(self).state, bound, j) == taken) && final(
                        self).state == state_after(old(self).state, bound, k + 1),
                None => (forall|j: nat|
                    j < tries ==> #[trigger] nth_draw(old(self).state, bound, j) == taken) && final(
                    self).state == state_after(old(self).state, bound, tries as nat),
            },
    {
        let mut k: u64 = 0;
        let ghost start = self.state;
        while k < tries
            invariant
                k <= tries,
                bound > 0,
                start == old(self).state,
                self.state == state_after(start, bound, k as nat),
                forall|j: nat| j < k ==> #[trigger] nth_draw(start, bound, j) == taken,
            decreases tries - k,
        {
            let value: usize = self.index(bound);
            proof {
                assert(value == nth_draw(start, bound, k as nat));
                assert(self.state == state_after(start, bound, (k + 1) as nat));
            }
            if value != taken {
                return Some(value);
            }
            k += 1;
        }
        None
    }
}

} // verus!
