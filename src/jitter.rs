//! Sources of the random offsets that spread new entries over their first
//! interval.
use rand::Rng;
use vstd::prelude::*;

verus! {

/// Draws offsets below a bound.
pub trait JitterSource {
    /// An offset in `[0, bound)`.
    fn draw(&mut self, bound: u32) -> (r: u32)
        requires
            bound > 0,
        ensures
            r < bound,
    ;
}

/// Relies on rand's `thread_rng` and `Rng::gen_range` over `0..bound`: a
/// value in that range (the range must not be empty).
#[verifier::external_body]
fn random_below(bound: u32) -> (r: u32)
    requires
        bound > 0,
    ensures
        r < bound,
{
    rand::thread_rng().gen_range(0..bound)
}

/// Offsets from the thread-local random generator.
pub struct RandomJitter;

impl JitterSource for RandomJitter {
    fn draw(&mut self, bound: u32) -> (r: u32) {
        random_below(bound)
    }
}

/// Offsets taken in turn from a fixed list, each reduced modulo the bound;
/// `0` once the list is used up.
pub struct ScriptedJitter {
    pub draws: Vec<u32>,
    pub next: usize,
}

impl ScriptedJitter {
    /// A source that hands out `draws` from the first.
    pub fn new(draws: Vec<u32>) -> (r: ScriptedJitter)
        ensures
            r.draws@ == draws@,
            r.next == 0,
    {
        ScriptedJitter { draws, next: 0 }
    }
}

impl JitterSource for ScriptedJitter {
    fn draw(&mut self, bound: u32) -> (r: u32)
        ensures
            old(self).next < old(self).draws@.len() ==> r == old(self).draws@[old(self).next as int] % bound
                && final(self).next == old(self).next + 1,
            old(self).next >= old(self).draws@.len() ==> r == 0 && final(self).next == old(self).next,
            final(self).draws == old(self).draws,
    {
        if self.next < self.draws.len() {
            let v = self.draws[self.next];
            self.next = self.next + 1;
            v % bound
        } else {
            0
        }
    }
}

} // verus!
