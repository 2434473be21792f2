//! Frames: complete, magic-delimited, length-validated records decoded from
//! the serial byte stream.

use vstd::prelude::*;

verus! {

/// Largest declared length (one id byte plus the payload bytes) that the
/// frame decoder accepts; larger or zero lengths abandon the frame, so a
/// corrupt length field can never monopolise the buffers.
pub const MAX_DECLARED_LEN: u16 = 2048;

/// Capacity of the bounded queue holding decoded frames until the dispatch
/// loop drains them.
pub const FRAME_QUEUE_CAPACITY: usize = 8;

/// Mathematical value of a frame: its id byte and its payload bytes.
pub ghost struct FrameView {
    pub id: u8,
    pub payload: Seq<u8>,
}

/// A complete record decoded from the serial stream: one id byte and a
/// length-validated payload. Created only by the frame decoder, consumed
/// exactly once by the dispatch loop, never mutated in between.
pub struct Frame {
    pub id: u8,
    pub payload: Vec<u8>,
}

impl View for Frame {
    type V = FrameView;

    open spec fn view(&self) -> FrameView {
        FrameView { id: self.id, payload: self.payload@ }
    }
}

impl FrameView {
    /// A frame is well formed when its payload respects the declared-length
    /// bound enforced by the decoder.
    pub open spec fn wf(self) -> bool {
        self.payload.len() + 1 <= MAX_DECLARED_LEN
    }
}

} // verus!
