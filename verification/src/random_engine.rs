//! Injectable sources of 64-bit randomness: the process-wide default
//! generator and a small deterministic xorshift generator for repeatable
//! runs.

use vstd::prelude::*;

verus! {

/// A source of 64-bit values. Nothing is promised of the values drawn, so
/// callers must be correct for every possible outcome.
pub trait RandomEngine {
    /// Draws the next value from the source.
    fn next(&mut self) -> u64;
}

/// The process-wide random source, backed by the operating system.
pub struct DefaultRandomEngine;

impl DefaultRandomEngine {
    /// Returns the default random source.
    pub fn new() -> (r: Self) {
        DefaultRandomEngine
    }
}

/// Relies on rand::random for fresh entropy. Nothing can be promised of a
/// random value.
pub assume_specification<T>[ rand::random::<T> ]() -> (r: T)
    where
        rand::distributions::Standard: rand::distributions::Distribution<T>,
;

impl RandomEngine for DefaultRandomEngine {
    fn next(&mut self) -> u64 {
        rand::random()
    }
}

/// Returns the default random source.
pub fn default() -> (r: DefaultRandomEngine) {
    DefaultRandomEngine::new()
}

/// One step of the xorshift recurrence: shift-and-fold the state left by
/// 13, right by 7 and left by 17.
pub open spec fn xorshift_step(x: u64) -> u64 {
    let a = x ^ (x << 13);
    let b = a ^ (a >> 7);
    b ^ (b << 17)
}

/// A deterministic xorshift generator: each draw replaces the state with
/// [`xorshift_step`] of it and returns the new state.
pub struct XorShifEngine {
    state: u64,
}

impl XorShifEngine {
    /// The current state of the generator.
    pub closed spec fn spec_state(self) -> u64 {
        self.state
    }

    /// Builds a generator whose state starts at `seed`.
    pub fn new(seed: u64) -> (r: Self)
        ensures
            r.spec_state() == seed,
    {
        XorShifEngine { state: seed }
    }
}

impl RandomEngine for XorShifEngine {
    fn next(&mut self) -> (r: u64)
        ensures
            final(self).spec_state() == xorshift_step(old(self).spec_state()),
            r == final(self).spec_state(),
    {
        let mut x = self.state;
        x = x ^ (x << 13);
        x = x ^ (x >> 7);
        x = x ^ (x << 17);
        self.state = x;
        self.state
    }
}

} // verus!
