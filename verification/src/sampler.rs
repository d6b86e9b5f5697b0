//! Independent sampling: every draw is made afresh from the distribution,
//! whatever was drawn before.

use vstd::prelude::*;
use rand::Rng;
use rand::distributions::Uniform;
use rand::rngs::ThreadRng;
use crate::distribution::{CategoricalDistribution, IntUniformDistribution, MAX_CHOICES};
use crate::error::Error;

verus! {

/// `rand::rngs::ThreadRng`, the handle to a thread's random generator.
/// Nothing is known of its state.
#[verifier::external_type_specification]
#[verifier::external_body]
pub struct ExThreadRng(rand::rngs::ThreadRng);

/// Calls `rand::thread_rng`, which hands out the calling thread's
/// generator, seeded by the system. Nothing is claimed of the result.
#[verifier::external_body]
fn thread_generator() -> (rng: ThreadRng) {
    rand::thread_rng()
}

/// Calls `rand::Rng::sample` with `rand::distributions::Uniform` over the
/// closed range from `low` to `high`. The range must not be empty, else the
/// distribution cannot be built. Claimed: the draw lies in the range.
#[verifier::external_body]
fn draw_int(rng: &mut ThreadRng, low: i64, high: i64) -> (n: i64)
    requires
        low <= high,
    ensures
        low <= n <= high,
{
    rng.sample(Uniform::from(low..=high))
}

/// Calls `rand::Rng::gen_range` on the half-open range from zero to `len`,
/// which must not be empty. Claimed: the draw lies below `len`.
#[verifier::external_body]
fn draw_index(rng: &mut ThreadRng, len: usize) -> (i: usize)
    requires
        len > 0,
    ensures
        i < len,
{
    rng.gen_range(0..len)
}

/// Draws parameter values, each independently of all earlier draws.
pub struct Sampler {
    rng: ThreadRng,
}

impl Sampler {
    /// A sampler on the calling thread's random generator.
    pub fn new() -> (s: Self) {
        Sampler { rng: thread_generator() }
    }

    /// An integer between the bounds of the distribution, both included.
    /// Bounds out of order are refused, and nothing is drawn.
    pub fn sample_independent_int(&mut self, distribution: &IntUniformDistribution) -> (r: Result<
        i64,
        Error,
    >)
        ensures
            match r {
                Ok(n) => distribution.valid() && distribution.low <= n <= distribution.high,
                Err(e) => !distribution.valid() && e == Error::Configuration,
            },
    {
        if distribution.low > distribution.high {
            return Err(Error::Configuration);
        }
        Ok(draw_int(&mut self.rng, distribution.low, distribution.high))
    }

    /// A position in the list of labels. An empty list, or one too long
    /// for its positions to be stored, is refused, and nothing is drawn.
    pub fn sample_independent_position(
        &mut self,
        distribution: &CategoricalDistribution,
    ) -> (r: Result<usize, Error>)
        ensures
            match r {
                Ok(i) => distribution.valid() && i < distribution@.len(),
                Err(e) => !distribution.valid() && e == Error::Configuration,
            },
    {
        let len: usize = distribution.choices.len();
        assert(distribution@.len() == len);
        if len == 0 || len as u64 > MAX_CHOICES {
            return Err(Error::Configuration);
        }
        Ok(draw_index(&mut self.rng, len))
    }

    /// One of the labels of the distribution. An empty list, or one too
    /// long for its positions to be stored, is refused, and nothing is
    /// drawn.
    pub fn sample_independent_category(
        &mut self,
        distribution: &CategoricalDistribution,
    ) -> (r: Result<String, Error>)
        ensures
            match r {
                Ok(label) => distribution.valid() && distribution@.contains(label@),
                Err(e) => !distribution.valid() && e == Error::Configuration,
            },
    {
        match self.sample_independent_position(distribution) {
            Ok(i) => Ok(distribution.choice(i)),
            Err(e) => Err(e),
        }
    }
}

} // verus!
