//! Gradient directions, kept as exact fractions of a full turn.

use rand::rngs::StdRng;
use rand::Rng;
use vstd::prelude::*;

verus! {

/// Number of steps in a full turn. A direction is one of these steps, so its
/// angle is `turn / TURN_STEPS` of the circle.
pub const TURN_STEPS: u32 = 16_777_216;

/// `rand::rngs::StdRng`, the random generator that directions are drawn
/// from. It is carried through as an opaque value.
#[verifier::external_type_specification]
#[verifier::external_body]
pub struct ExStdRng(StdRng);

/// Draws the next 32-bit number from the generator with `Rng::gen::<u32>`.
/// The number depends on the generator's hidden state, so nothing is claimed
/// of it.
#[verifier::external_body]
fn draw_sample(rng: &mut StdRng) -> (sample: u32) {
    rng.gen::<u32>()
}

/// The direction of a unit gradient vector, as a step on a circle divided into
/// [`TURN_STEPS`] equal parts. Every value has length one by construction:
/// only the angle is stored.
#[derive(Clone, Copy, Debug, PartialEq, Eq)]
pub struct Gradient {
    turn: u32,
}

impl View for Gradient {
    type V = nat;

    /// The step on the circle, below [`TURN_STEPS`].
    closed spec fn view(&self) -> nat {
        self.turn as nat
    }
}

impl Gradient {
    #[verifier::type_invariant]
    spec fn on_circle(self) -> bool {
        self.turn < TURN_STEPS
    }

    /// The direction that a 32-bit sample stands for: its upper 24 bits, so
    /// that uniform samples give directions uniform over the circle.
    pub fn from_sample(sample: u32) -> (gradient: Gradient)
        ensures
            gradient@ == sample / 256,
    {
        assert(sample >> 8 == sample / 256 && (sample >> 8) < 16_777_216u32) by (bit_vector);
        Gradient { turn: sample >> 8 }
    }

    /// A direction drawn from `rng`. Whatever the generator yields, the result
    /// is a valid step on the circle.
    pub fn random(rng: &mut StdRng) -> (gradient: Gradient)
        ensures
            gradient@ < TURN_STEPS,
    {
        let sample = draw_sample(rng);
        Gradient::from_sample(sample)
    }

    /// The step on the circle.
    pub fn turn(&self) -> (turn: u32)
        ensures
            turn == self@,
            turn < TURN_STEPS,
    {
        proof {
            use_type_invariant(self);
        }
        self.turn
    }
}

} // verus!
