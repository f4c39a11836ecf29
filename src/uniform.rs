use rand::distributions::{Distribution, Uniform};
use rand::rngs::ThreadRng;
use vstd::prelude::*;

verus! {

#[verifier::external_type_specification]
#[verifier::external_body]
pub struct ExThreadRng(ThreadRng);

/// Relies on `rand::thread_rng`: the generator of this thread, seeded by the
/// system.
#[verifier::external_body]
fn system_rng() -> ThreadRng {
    rand::thread_rng()
}

/// Relies on `rand::distributions::Uniform` over `low..high`, sampled through
/// `Distribution::sample`: a value in `low..high`. `Uniform::from` panics on
/// an empty range, which `requires` leaves out.
#[verifier::external_body]
fn draw(rng: &mut ThreadRng, low: usize, high: usize) -> (r: usize)
    requires
        low < high,
    ensures
        low <= r < high,
{
    Uniform::from(low..high).sample(rng)
}

/// Draws integers uniformly from the range `start..end`.
pub struct UniformRng {
    start: usize,
    end: usize,
    rng: ThreadRng,
}

impl UniformRng {
    /// The least value that can be drawn.
    pub closed spec fn low(&self) -> usize {
        self.start
    }

    /// One past the greatest value that can be drawn.
    pub closed spec fn high(&self) -> usize {
        self.end
    }

    /// The range is not empty.
    pub open spec fn wf(&self) -> bool {
        self.low() < self.high()
    }

    /// A generator for `start..end`, seeded by the system.
    pub fn new(start: usize, end: usize) -> (r: UniformRng)
        requires
            start < end,
        ensures
            r.wf(),
            r.low() == start,
            r.high() == end,
    {
        UniformRng { start, end, rng: system_rng() }
    }

    /// The next value drawn from the range.
    pub fn sample(&mut self) -> (r: usize)
        requires
            old(self).wf(),
        ensures
            final(self).wf(),
            final(self).low() == old(self).low(),
            final(self).high() == old(self).high(),
            old(self).low() <= r < old(self).high(),
    {
        draw(&mut self.rng, self.start, self.end)
    }
}

} // verus!
