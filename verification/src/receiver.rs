//! The stream receiver's ownership discipline, and the liveness signal.
//!
//! Serial capture runs continuously into one of two fixed buffers while
//! software processes the other; the hardware side (arming the capture,
//! waiting for completion) stays outside the crate, which keeps only the
//! ping-pong bookkeeping: at every moment exactly one buffer is armed for
//! the device and the other belongs to software, and completing a capture
//! swaps the two, so no byte ever arrives while both buffers are busy.

use vstd::prelude::*;

verus! {

/// Which of the two capture buffers a moment of the protocol names.
#[derive(Clone, Copy, PartialEq, Eq, Structural, Debug)]
pub enum BufferSlot {
    First,
    Second,
}

/// The buffer that is not `s`.
pub open spec fn other_slot(s: BufferSlot) -> BufferSlot {
    match s {
        BufferSlot::First => BufferSlot::Second,
        BufferSlot::Second => BufferSlot::First,
    }
}

/// Bookkeeping of the double-buffered capture: which buffer the device is
/// filling right now. The other one is the software-owned "ready" buffer,
/// so ownership never overlaps.
pub struct StreamReceiver {
    pub filling: BufferSlot,
}

impl StreamReceiver {
    /// Capture starts armed into the first buffer.
    pub fn new() -> (r: StreamReceiver)
        ensures
            r.filling == BufferSlot::First,
    {
        StreamReceiver { filling: BufferSlot::First }
    }

    /// The armed buffer has filled: capture re-arms at once into the
    /// alternate buffer and the just-filled one is handed to software.
    /// The returned slot is never the one left armed.
    pub fn complete(&mut self) -> (ready: BufferSlot)
        ensures
            ready == old(self).filling,
            final(self).filling == other_slot(old(self).filling),
            final(self).filling != ready,
    {
        let r = self.filling;
        self.filling = match self.filling {
            BufferSlot::First => BufferSlot::Second,
            BufferSlot::Second => BufferSlot::First,
        };
        r
    }
}

/// The liveness signal: a single flag toggled by an independent periodic
/// timer, decoupled from the dispatch loop's cadence.
pub struct Heartbeat {
    pub on: bool,
}

impl Heartbeat {
    /// The signal starts low.
    pub fn new() -> (r: Heartbeat)
        ensures
            !r.on,
    {
        Heartbeat { on: false }
    }

    /// One timer tick: the signal inverts, whatever else the loop does.
    pub fn toggle(&mut self)
        ensures
            final(self).on == !old(self).on,
    {
        self.on = !self.on;
    }
}

} // verus!
