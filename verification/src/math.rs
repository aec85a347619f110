use vstd::prelude::*;

use rand::RngExt;
use rand::SeedableRng;
use rand_xoshiro::Xoshiro256StarStar;

use crate::input::Pyxel;

verus! {

/// The random generator whose state the random functions advance.
#[verifier::external_type_specification]
#[verifier::external_body]
pub struct ExXoshiro256StarStar(Xoshiro256StarStar);

/// The value that `rand::RngExt::random_range` on `low..=high` draws from a generator in
/// state `rng`. The generator holds all the state the draw reads, so the value is a
/// function of these three.
pub uninterp spec fn sampled(rng: Xoshiro256StarStar, low: i32, high: i32) -> i32;

/// The state that the same draw leaves the generator in.
pub uninterp spec fn advanced(rng: Xoshiro256StarStar, low: i32, high: i32) -> Xoshiro256StarStar;

/// The state that `rand_xoshiro::Xoshiro256StarStar::seed_from_u64` makes from `seed`.
pub uninterp spec fn seeded_state(seed: u64) -> Xoshiro256StarStar;

/// `rand::RngExt::random_range` on `low..=high`: a value of the range, the value named
/// `sampled` of the generator's state and the bounds; the generator moves on to the state
/// named `advanced` of the same. Which value of the range that is, is not stated.
#[verifier::external_body]
fn sample_inclusive(rng: &mut Xoshiro256StarStar, low: i32, high: i32) -> (r: i32)
    requires
        low <= high,
    ensures
        low <= r <= high,
        r == sampled(*old(rng), low, high),
        *final(rng) == advanced(*old(rng), low, high),
{
    rng.random_range(low..=high)
}

/// `rand_xoshiro::Xoshiro256StarStar::seed_from_u64`: the generator state named
/// `seeded_state` of `seed`. What that state holds is not stated.
#[verifier::external_body]
fn seeded_generator(seed: u64) -> (r: Xoshiro256StarStar)
    ensures
        r == seeded_state(seed),
{
    Xoshiro256StarStar::seed_from_u64(seed)
}

/// The bounds of `random_int` in increasing order.
pub open spec fn ordered_bounds(min: i32, max: i32) -> (i32, i32) {
    if min < max { (min, max) } else { (max, min) }
}

/// The value `random_int(min, max)` draws from a generator in state `rng`.
pub open spec fn random_int_value(rng: Xoshiro256StarStar, min: i32, max: i32) -> i32 {
    sampled(rng, ordered_bounds(min, max).0, ordered_bounds(min, max).1)
}

/// The state `random_int(min, max)` leaves a generator in that was in state `rng`.
pub open spec fn random_int_state(rng: Xoshiro256StarStar, min: i32, max: i32) -> Xoshiro256StarStar {
    advanced(rng, ordered_bounds(min, max).0, ordered_bounds(min, max).1)
}

/// The values that successive `random_int` calls with `bounds` draw from state `rng`.
pub open spec fn random_ints(rng: Xoshiro256StarStar, bounds: Seq<(i32, i32)>) -> Seq<i32>
    decreases bounds.len(),
{
    if bounds.len() == 0 {
        Seq::empty()
    } else {
        seq![random_int_value(rng, bounds[0].0, bounds[0].1)]
            + random_ints(random_int_state(rng, bounds[0].0, bounds[0].1), bounds.drop_first())
    }
}

impl Pyxel {
    /// Restarts the generator from `seed`.
    pub fn random_seed(rng: &mut Xoshiro256StarStar, seed: u32)
        ensures
            *final(rng) == seeded_state(seed as u64),
    {
        *rng = seeded_generator(seed as u64);
    }

    /// A random integer between `min` and `max`, both included; the bounds may come in
    /// either order.
    pub fn random_int(rng: &mut Xoshiro256StarStar, min: i32, max: i32) -> (r: i32)
        ensures
            (min <= max ==> min <= r <= max),
            (max < min ==> max <= r <= min),
            r == random_int_value(*old(rng), min, max),
            *final(rng) == random_int_state(*old(rng), min, max),
    {
        let (low, high) = if min < max { (min, max) } else { (max, min) };
        sample_inclusive(rng, low, high)
    }
}

/// The bounds of `random_int` may be given in either order: from one state, both orders
/// draw the same value and leave the same state.
pub proof fn lemma_random_int_bounds_either_order(rng: Xoshiro256StarStar, a: i32, b: i32)
    ensures
        random_int_value(rng, a, b) == random_int_value(rng, b, a),
        random_int_state(rng, a, b) == random_int_state(rng, b, a),
{
}

/// Reseeding repeats the sequence: after `random_seed(seed)`, the calls of `random_int`
/// draw the same values whenever they are made, and either order of each call's bounds
/// draws the same values.
pub proof fn lemma_reseeding_repeats_sequence(seed: u32, bounds: Seq<(i32, i32)>, swapped: Seq<(i32, i32)>)
    requires
        swapped.len() == bounds.len(),
        forall|i: int| 0 <= i < bounds.len() ==>
            (#[trigger] swapped[i] == bounds[i] || swapped[i] == (bounds[i].1, bounds[i].0)),
    ensures
        random_ints(seeded_state(seed as u64), bounds) == random_ints(seeded_state(seed as u64), swapped),
{
    lemma_random_ints_swap(seeded_state(seed as u64), bounds, swapped);
}

proof fn lemma_random_ints_swap(rng: Xoshiro256StarStar, bounds: Seq<(i32, i32)>, swapped: Seq<(i32, i32)>)
    requires
        swapped.len() == bounds.len(),
        forall|i: int| 0 <= i < bounds.len() ==>
            (#[trigger] swapped[i] == bounds[i] || swapped[i] == (bounds[i].1, bounds[i].0)),
    ensures
        random_ints(rng, bounds) == random_ints(rng, swapped),
    decreases bounds.len(),
{
    if bounds.len() > 0 {
        assert(swapped[0] == bounds[0] || swapped[0] == (bounds[0].1, bounds[0].0));
        lemma_random_int_bounds_either_order(rng, bounds[0].0, bounds[0].1);
        let next = random_int_state(rng, bounds[0].0, bounds[0].1);
        assert forall|i: int| 0 <= i < bounds.drop_first().len() implies
            (#[trigger] swapped.drop_first()[i] == bounds.drop_first()[i]
                || swapped.drop_first()[i] == (bounds.drop_first()[i].1, bounds.drop_first()[i].0)) by {
            assert(swapped[i + 1] == bounds[i + 1] || swapped[i + 1] == (bounds[i + 1].1, bounds[i + 1].0));
        }
        lemma_random_ints_swap(next, bounds.drop_first(), swapped.drop_first());
    }
}

} // verus!
