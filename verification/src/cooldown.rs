//! Rate-limit timers: a plain countdown that gates repeated input, driven
//! by elapsed milliseconds handed in from outside.

use core::marker::PhantomData;
use vstd::prelude::*;

verus! {

/// Marker for the rotation cooldown that rate-limits rotate commands.
pub struct Rotating;

/// A countdown gating one kind of action; `T` names what is being gated.
pub struct Cooldown<T> {
    pub remaining_ms: u64,
    pub marker: PhantomData<T>,
}

impl<T> Cooldown<T> {
    /// Starts a fresh countdown of the given length.
    pub fn new(duration_ms: u64) -> (c: Self)
        ensures
            c.remaining_ms == duration_ms,
    {
        Cooldown { remaining_ms: duration_ms, marker: PhantomData }
    }
}

/// Advances a countdown by the elapsed time; reports whether it just ran
/// out on this tick, after which the gated action is accepted again.
pub fn process_cooldown<T>(cooldown: &mut Cooldown<T>, elapsed_ms: u64) -> (finished: bool)
    ensures
        final(cooldown).remaining_ms == if old(cooldown).remaining_ms >= elapsed_ms {
            (old(cooldown).remaining_ms - elapsed_ms) as u64
        } else {
            0u64
        },
        finished == (old(cooldown).remaining_ms > 0 && final(cooldown).remaining_ms == 0),
{
    let before = cooldown.remaining_ms;
    if cooldown.remaining_ms >= elapsed_ms {
        cooldown.remaining_ms = cooldown.remaining_ms - elapsed_ms;
    } else {
        cooldown.remaining_ms = 0;
    }
    before > 0 && cooldown.remaining_ms == 0
}

} // verus!
