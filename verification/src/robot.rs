//! The dispatcher: the single cooperative loop's state and its two
//! ingestion steps.
//!
//! One loop iteration, driven from outside the crate, (1) waits for a
//! capture buffer and hands it to [`Robot::process_buffer`], which feeds
//! every byte to the frame decoder, drains the frame queue and returns all
//! resulting commands in strict payload order; (2) forwards each command's
//! encoding to the bus; (3) polls the network and hands a pending datagram
//! to [`Robot::process_datagram`]. Malformed frames and datagrams are
//! counted and skipped — they never disturb queued state and never stop
//! the loop.

use vstd::prelude::*;

use crate::command::decode_batch;
use crate::command::decode_records;
use crate::command::Command;
use crate::datagram::command_of;
use crate::datagram::decode_datagram;
use crate::datagram::text_of;
use crate::datagram::IngestError;
use crate::decoder::init;
use crate::decoder::sat_inc;
use crate::decoder::steps;
use crate::decoder::wf;
use crate::decoder::DecoderView;
use crate::decoder::FrameDecoder;
use crate::frame::FrameView;
use crate::receiver::BufferSlot;
use crate::receiver::Heartbeat;
use crate::receiver::StreamReceiver;

verus! {

/// The commands the dispatch loop forwards for a queue of frames: each
/// frame's batch in queue order, in payload order inside a batch, with
/// malformed frames contributing nothing.
pub open spec fn commands_of_frames(q: Seq<FrameView>) -> Seq<Command>
    decreases q.len(),
{
    if q.len() == 0 {
        Seq::empty()
    } else {
        match decode_records(q[0].payload) {
            Ok(cs) => cs + commands_of_frames(q.skip(1)),
            Err(_) => commands_of_frames(q.skip(1)),
        }
    }
}

/// How many frames of a queue carry a malformed batch.
pub open spec fn malformed_frames(q: Seq<FrameView>) -> nat
    decreases q.len(),
{
    if q.len() == 0 {
        0
    } else {
        (match decode_records(q[0].payload) {
            Ok(_) => 0nat,
            Err(_) => 1nat,
        }) + malformed_frames(q.skip(1))
    }
}

/// Saturating addition on the error counter.
pub open spec fn sat_add(a: u64, n: nat) -> u64 {
    if a + n <= u64::MAX {
        (a + n) as u64
    } else {
        u64::MAX
    }
}

/// The state of the whole ingestion pipeline: the frame decoder with its
/// queue, the capture bookkeeping, the liveness flag, and a count of
/// malformed inputs absorbed so far.
pub struct Robot {
    pub decoder: FrameDecoder,
    pub receiver: StreamReceiver,
    pub heartbeat: Heartbeat,
    pub decode_errors: u64,
}

impl Robot {
    /// A fresh pipeline: decoder seeking the magic, first buffer armed,
    /// liveness low, nothing yet absorbed.
    pub fn new() -> (r: Robot)
        ensures
            r.decoder@ == init(),
            wf(r.decoder@),
            r.receiver.filling == BufferSlot::First,
            !r.heartbeat.on,
            r.decode_errors == 0,
    {
        Robot {
            decoder: FrameDecoder::new(),
            receiver: StreamReceiver::new(),
            heartbeat: Heartbeat::new(),
            decode_errors: 0,
        }
    }

    /// One returned capture buffer: every byte is fed to the frame
    /// decoder in order, then the frame queue is drained and each frame's
    /// command batch is collected, in strict payload order; malformed
    /// frames are counted and skipped, and no partial batch appears.
    pub fn process_buffer(&mut self, buf: &[u8]) -> (cmds: Vec<Command>)
        requires
            wf(old(self).decoder@),
        ensures
            wf(final(self).decoder@),
            ({
                let fed = steps(old(self).decoder@, buf@);
                &&& final(self).decoder@ == (DecoderView { queue: Seq::empty(), ..fed })
                &&& cmds@ == commands_of_frames(fed.queue)
                &&& final(self).decode_errors == sat_add(
                    old(self).decode_errors,
                    malformed_frames(fed.queue),
                )
            }),
            final(self).receiver == old(self).receiver,
            final(self).heartbeat == old(self).heartbeat,
    {
        self.decoder.feed_buffer(buf);
        let ghost fed = self.decoder@;
        let ghost e0 = self.decode_errors;
        let mut cmds: Vec<Command> = Vec::new();
        proof {
            assert(Seq::<Command>::empty() + commands_of_frames(fed.queue) =~= commands_of_frames(
                fed.queue,
            ));
        }
        while self.decoder.queue_len() > 0
            invariant
                wf(self.decoder@),
                self.decoder@.state == fed.state,
                self.decoder@.partial == fed.partial,
                self.decoder@.dropped == fed.dropped,
                commands_of_frames(fed.queue) == cmds@ + commands_of_frames(self.decoder@.queue),
                sat_add(e0, malformed_frames(fed.queue)) == sat_add(
                    self.decode_errors,
                    malformed_frames(self.decoder@.queue),
                ),
                self.receiver == old(self).receiver,
                self.heartbeat == old(self).heartbeat,
            decreases self.decoder@.queue.len(),
        {
            let ghost q = self.decoder@.queue;
            let fr = self.decoder.pop_frame().unwrap();
            proof {
                assert(fr@ == q[0]);
                assert(self.decoder@.queue == q.skip(1));
            }
            match decode_batch(fr.payload.as_slice()) {
                Ok(mut batch) => {
                    proof {
                        assert(decode_records(q[0].payload) == Ok::<
                            Seq<Command>,
                            crate::command::DecodeError,
                        >(batch@));
                        assert((cmds@ + batch@) + commands_of_frames(q.skip(1)) =~= cmds@ + (batch@
                            + commands_of_frames(q.skip(1))));
                    }
                    cmds.append(&mut batch);
                },
                Err(_) => {
                    if self.decode_errors < u64::MAX {
                        self.decode_errors = self.decode_errors + 1;
                    }
                },
            }
        }
        proof {
            assert(self.decoder@.queue =~= Seq::<FrameView>::empty());
            assert(commands_of_frames(Seq::<FrameView>::empty()) == Seq::<Command>::empty());
            assert(malformed_frames(Seq::<FrameView>::empty()) == 0);
            assert(cmds@ + Seq::<Command>::empty() =~= cmds@);
        }
        cmds
    }

    /// One pending datagram: decoded in isolation — success touches
    /// nothing, and a malformed datagram only raises the error count,
    /// leaving every queued frame and the decoder exactly as they were.
    pub fn process_datagram(&mut self, d: &[u8]) -> (r: Result<Command, IngestError>)
        ensures
            final(self).decoder == old(self).decoder,
            final(self).receiver == old(self).receiver,
            final(self).heartbeat == old(self).heartbeat,
            match r {
                Ok(c) => d@.len() >= 1 && final(self).decode_errors == old(self).decode_errors
                    && (exists|rec: crate::datagram::ServoRecord|
                    d@.skip(1) == #[trigger] text_of(rec) && c == command_of(rec)),
                Err(e) => final(self).decode_errors == sat_inc(old(self).decode_errors) && match e {
                    IngestError::Empty => d@.len() == 0,
                    IngestError::Malformed => d@.len() >= 1 && (forall|rec: crate::datagram::ServoRecord|
                        d@.skip(1) != #[trigger] text_of(rec)),
                },
            },
    {
        let r = decode_datagram(d);
        if r.is_err() {
            if self.decode_errors < u64::MAX {
                self.decode_errors = self.decode_errors + 1;
            }
        }
        r
    }
}

} // verus!
