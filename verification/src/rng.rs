use vstd::prelude::*;

use std::sync::{Arc, Mutex};

use rand::rngs::StdRng;
use rand::{RngExt, SeedableRng};

verus! {

/// Where a node draws its random numbers from.
pub trait RngProvider: Clone {
    /// The generator was asked once for a number of the range [low, high),
    /// gave `r`, and is `after` since.
    spec fn drew(&self, after: &Self, low: u64, high: u64, r: u64) -> bool;

    /// Generates a random u64 in the range [low, high).
    fn random_range(&mut self, low: u64, high: u64) -> (r: u64)
        requires
            low < high,
        ensures
            low <= r < high,
            old(self).drew(final(self), low, high, r),
    ;
}

/// `rand::rng().random_range(low..high)`: some number of the range, which is
/// all that holds of every draw.
#[verifier::external_body]
fn thread_rng_draw(low: u64, high: u64) -> (r: u64)
    requires
        low < high,
    ensures
        low <= r < high,
{
    rand::rng().random_range(low..high)
}

/// Draws from the generator of the running thread.
#[derive(Clone, Copy, Debug, Default)]
pub struct DefaultRng;

impl RngProvider for DefaultRng {
    /// The generator of the thread gave `r` for this very range.
    closed spec fn drew(&self, after: &Self, low: u64, high: u64, r: u64) -> bool {
        call_ensures(thread_rng_draw, (low, high), r)
    }

    fn random_range(&mut self, low: u64, high: u64) -> u64 {
        thread_rng_draw(low, high)
    }
}

#[verifier::external_type_specification]
#[verifier::external_body]
pub struct ExStdRng(StdRng);

#[verifier::external_type_specification]
#[verifier::external_body]
#[verifier::reject_recursive_types(T)]
pub struct ExMutex<T: ?Sized>(Mutex<T>);

/// Draws from one generator that was seeded once and is shared by all handles
/// on it.
pub struct DeterministicRng {
    rng: Arc<Mutex<StdRng>>,
    /// The seed that the generator was started from.
    seed: Ghost<u64>,
}

/// `StdRng::seed_from_u64`, placed behind a lock: a generator started from
/// `seed`. Nothing is said of the numbers that it will give: even with a fixed
/// seed, `rand` does not promise them to be the same on every platform.
#[verifier::external_body]
fn seeded(seed: u64) -> (r: DeterministicRng)
    ensures
        r.seed() == seed,
{
    DeterministicRng {
        rng: Arc::new(Mutex::new(StdRng::seed_from_u64(seed))),
        seed: Ghost(seed),
    }
}

/// `StdRng::random_range(low..high)` on the generator behind the lock: some
/// number of the range. Which one depends on what was drawn before through
/// any handle, so nothing more holds of every draw.
#[verifier::external_body]
fn seeded_draw(rng: &Arc<Mutex<StdRng>>, low: u64, high: u64) -> (r: u64)
    requires
        low < high,
    ensures
        low <= r < high,
{
    rng.lock().unwrap_or_else(std::sync::PoisonError::into_inner).random_range(low..high)
}

impl DeterministicRng {
    /// The seed that the generator behind this handle was started from.
    pub closed spec fn seed(&self) -> u64 {
        self.seed@
    }

    /// A generator started from `seed`.
    pub fn new(seed: u64) -> (r: Self)
        ensures
            r.seed() == seed,
    {
        seeded(seed)
    }
}

impl Clone for DeterministicRng {
    /// Another handle on the same generator.
    fn clone(&self) -> (r: Self)
        ensures
            r == *self,
    {
        DeterministicRng { rng: self.rng.clone(), seed: Ghost(self.seed@) }
    }
}

impl RngProvider for DeterministicRng {
    /// The generator behind the handle gave `r` for this very range.
    closed spec fn drew(&self, after: &Self, low: u64, high: u64, r: u64) -> bool {
        &&& call_ensures(seeded_draw, (&self.rng, low, high), r)
        &&& *after == *self
    }

    /// The handle stays one on the same generator.
    fn random_range(&mut self, low: u64, high: u64) -> (r: u64)
        ensures
            *final(self) == *old(self),
    {
        seeded_draw(&self.rng, low, high)
    }
}

/// A number that was drawn is one that the generator gave for the very range
/// that was asked for, and so lies in it.
proof fn law_draws_are_of_the_range(
    thread: DefaultRng,
    seeded: DeterministicRng,
    after: DeterministicRng,
    low: u64,
    high: u64,
    r: u64,
)
    requires
        low < high,
    ensures
        thread.drew(&thread, low, high, r) ==> {
            &&& call_ensures(thread_rng_draw, (low, high), r)
            &&& low <= r < high
        },
        seeded.drew(&after, low, high, r) ==> {
            &&& call_ensures(seeded_draw, (&seeded.rng, low, high), r)
            &&& low <= r < high
            &&& after.rng == seeded.rng
            &&& after.seed() == seeded.seed()
        },
{
}

} // verus!
