use vstd::prelude::*;

verus! {

/// Number of distinct tick values of the 32-bit counter: the clock wraps after
/// this many ticks, about 49.7 days at a 1 kHz tick.
pub const WRAP_PERIOD: u64 = 0x1_0000_0000;

/// A reading of the monotonic 32-bit tick counter.
#[derive(Clone, Copy, Debug, PartialEq, Eq, Structural)]
pub struct Instant {
    pub ticks: u32,
}

impl Instant {
    /// Ticks elapsed from `earlier` to `self`, modulo the wrap period.
    pub open spec fn elapsed_spec(self, earlier: Instant) -> nat {
        ((self.ticks as int - earlier.ticks as int) % (WRAP_PERIOD as int)) as nat
    }

    /// Ticks elapsed since `earlier`, computed with wrapping subtraction.
    pub fn duration_since(&self, earlier: Instant) -> (r: u32)
        ensures
            r as nat == self.elapsed_spec(earlier),
    {
        self.ticks.wrapping_sub(earlier.ticks)
    }

    /// The reading `delay` ticks later, wrapping at the counter width.
    pub fn after(&self, delay: u32) -> (r: Instant)
        ensures
            r.ticks as int == (self.ticks as int + delay as int) % (WRAP_PERIOD as int),
    {
        Instant { ticks: self.ticks.wrapping_add(delay) }
    }

    /// Whether at least `delay` ticks have elapsed from `start` to `self`.
    pub fn reached(&self, start: Instant, delay: u32) -> (r: bool)
        ensures
            r == (self.elapsed_spec(start) >= delay as nat),
    {
        self.duration_since(start) >= delay
    }
}

/// Elapsed time survives a wrap of the counter: read `delta` ticks past one
/// full period after `t0`, the counter shows exactly `delta` elapsed.
pub proof fn lemma_wrap_correct(t0: Instant, delta: u32)
    ensures
        (Instant {
            ticks: ((t0.ticks as int + WRAP_PERIOD as int + delta as int) % (WRAP_PERIOD as int)) as u32,
        }).elapsed_spec(t0) == delta as nat,
{
    let w = WRAP_PERIOD as int;
    let a = t0.ticks as int;
    let d = delta as int;
    let x = (a + w + d) % w;
    if a + d < w {
        assert(x == a + d);
    } else {
        assert(x == a + d - w);
    }
}

} // verus!
