//! Uniform random choice of nodes, from a generator with a given seed.

use rand::rngs::StdRng;
use rand::{Rng, SeedableRng};
use vstd::prelude::*;
use crate::error::EmptyGraphError;

verus! {

/// The generator of the `rand` crate that a sampler draws from. Nothing is
/// known of what it holds.
#[verifier::external_type_specification]
#[verifier::external_body]
pub struct ExStdRng(StdRng);

/// A source of random nodes, drawn from a generator with a seed of the
/// caller's choice.
pub struct Sampler {
    rng: StdRng,
}

/// Calls `StdRng::seed_from_u64` of the `rand` crate, which builds a
/// generator from nothing but the seed. What it holds is not claimed.
#[verifier::external_body]
fn seeded_generator(seed: u64) -> (rng: StdRng)
    ensures
        rng == generator_from(seed),
{
    StdRng::seed_from_u64(seed)
}

/// Calls `Rng::gen_range` of the `rand` crate on the range `0..bound`. The
/// call panics on an empty range, so `bound` must be positive; what it
/// returns lies in the range. Which number of the range it returns is not
/// claimed.
#[verifier::external_body]
fn draw_below(rng: &mut StdRng, bound: usize) -> (drawn: usize)
    requires
        bound > 0,
    ensures
        drawn < bound,
{
    rng.gen_range(0..bound)
}

impl Sampler {
    /// A sampler that has drawn nothing yet from the generator of `seed`.
    pub fn new(seed: u64) -> (sampler: Sampler)
        ensures
            sampler.generator() == generator_from(seed),
    {
        Sampler { rng: seeded_generator(seed) }
    }

    /// The generator that the sampler draws from next. Every draw changes
    /// it.
    pub closed spec fn generator(&self) -> StdRng {
        self.rng
    }

    /// Draws one of the nodes `0..n`, each with the same chance. There is
    /// nothing to draw from where `n` is 0.
    pub fn pick(&mut self, n: usize) -> (node: Result<usize, EmptyGraphError>)
        ensures
            node is Err <==> n == 0,
            node matches Ok(v) ==> v < n,
    {
        if n == 0 {
            Err(EmptyGraphError)
        } else {
            Ok(draw_below(&mut self.rng, n))
        }
    }

    /// Draws `count` nodes of `0..n` one after the other, each drawn anew
    /// from all of them.
    pub fn pick_many(&mut self, n: usize, count: usize) -> (nodes: Result<Vec<usize>, EmptyGraphError>)
        ensures
            nodes is Err <==> n == 0 && count > 0,
            nodes matches Ok(v) ==> v@.len() == count && forall|i: int|
                0 <= i < count ==> (#[trigger] v@[i]) < n,
    {
        let mut nodes: Vec<usize> = Vec::new();
        let mut i: usize = 0;
        while i < count
            invariant
                i <= count,
                i > 0 ==> n > 0,
                nodes@.len() == i,
                forall|j: int| 0 <= j < i ==> (#[trigger] nodes@[j]) < n,
            decreases count - i,
        {
            match self.pick(n) {
                Ok(v) => {
                    nodes.push(v);
                },
                Err(e) => {
                    return Err(e);
                },
            }
            i += 1;
        }
        Ok(nodes)
    }

    /// Draws `count` pairs of nodes of `0..n`: for each pair first the one
    /// node, then the other, which may be the same.
    pub fn pick_pairs(&mut self, n: usize, count: usize) -> (pairs: Result<
        Vec<(usize, usize)>,
        EmptyGraphError,
    >)
        ensures
            pairs is Err <==> n == 0 && count > 0,
            pairs matches Ok(v) ==> v@.len() == count && forall|i: int|
                0 <= i < count ==> (#[trigger] v@[i]).0 < n && v@[i].1 < n,
    {
        let mut pairs: Vec<(usize, usize)> = Vec::new();
        let mut i: usize = 0;
        while i < count
            invariant
                i <= count,
                i > 0 ==> n > 0,
                pairs@.len() == i,
                forall|j: int| 0 <= j < i ==> (#[trigger] pairs@[j]).0 < n && pairs@[j].1 < n,
            decreases count - i,
        {
            let first = match self.pick(n) {
                Ok(v) => v,
                Err(e) => {
                    return Err(e);
                },
            };
            let second = match self.pick(n) {
                Ok(v) => v,
                Err(e) => {
                    return Err(e);
                },
            };
            pairs.push((first, second));
            i += 1;
        }
        Ok(pairs)
    }
}

/// The generator that `StdRng::seed_from_u64` of the `rand` crate builds
/// from `seed`.
pub uninterp spec fn generator_from(seed: u64) -> StdRng;

} // verus!
