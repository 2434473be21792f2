//! The unified in-memory representation of an actuator command, and the
//! decoding of a frame payload into an ordered batch of commands.
//!
//! A frame payload is a sequence of packed records, each
//! `{ id: 1 byte, control tag: 1 byte, data: 2 bytes little-endian,
//! rotation: 1 byte present only for the speed tag }`. Decoding proceeds
//! record by record; a malformed or truncated record rejects the whole
//! batch, so no partial batch is ever dispatched.

use vstd::prelude::*;

verus! {

/// Control tag byte marking a packed position record.
pub const TAG_POSITION: u8 = 1;

/// Control tag byte marking a packed speed record.
pub const TAG_SPEED: u8 = 2;

/// Rotation byte of a packed speed record: clockwise.
pub const ROT_CLOCKWISE: u8 = 0;

/// Rotation byte of a packed speed record: counter-clockwise.
pub const ROT_COUNTER_CLOCKWISE: u8 = 1;

/// Rotation sense of a speed command.
#[derive(Clone, Copy, PartialEq, Eq, Structural, Debug)]
pub enum Rotation {
    Clockwise,
    CounterClockwise,
}

/// What a command asks of its actuator: a target position, or a speed with
/// a rotation sense.
#[derive(Clone, Copy, PartialEq, Eq, Structural, Debug)]
pub enum Action {
    Position(u16),
    Speed(u16, Rotation),
}

/// A single actuator instruction addressed to one actuator id. Immutable
/// once built; dispatched at most once.
#[derive(Clone, Copy, PartialEq, Eq, Structural, Debug)]
pub struct Command {
    pub actuator_id: u8,
    pub action: Action,
}

/// Why a frame payload was rejected as a command batch.
#[derive(Clone, Copy, PartialEq, Eq, Structural, Debug)]
pub enum DecodeError {
    /// The remaining payload is shorter than one full record.
    Truncated,
    /// A record's control tag is neither the position nor the speed tag.
    UnknownTag,
    /// A speed record's rotation byte names no rotation sense.
    UnknownRotation,
}

/// The 16-bit value encoded little-endian by two payload bytes.
pub open spec fn spec_le16(lo: u8, hi: u8) -> u16 {
    (lo as int + 256 * (hi as int)) as u16
}

/// The rotation sense named by a packed rotation byte, if any.
pub open spec fn spec_rotation_of(b: u8) -> Option<Rotation> {
    if b == ROT_CLOCKWISE {
        Some(Rotation::Clockwise)
    } else if b == ROT_COUNTER_CLOCKWISE {
        Some(Rotation::CounterClockwise)
    } else {
        None
    }
}

/// The command batch packed in a payload: records decoded front to back,
/// the first malformed record rejecting the whole batch.
pub open spec fn decode_records(p: Seq<u8>) -> Result<Seq<Command>, DecodeError>
    decreases p.len(),
{
    if p.len() == 0 {
        Ok(Seq::empty())
    } else if p.len() < 4 {
        Err(DecodeError::Truncated)
    } else if p[1] == TAG_POSITION {
        match decode_records(p.skip(4)) {
            Ok(rest) => Ok(
                seq![Command { actuator_id: p[0], action: Action::Position(spec_le16(p[2], p[3])) }]
                    + rest,
            ),
            Err(e) => Err(e),
        }
    } else if p[1] == TAG_SPEED {
        if p.len() < 5 {
            Err(DecodeError::Truncated)
        } else {
            match spec_rotation_of(p[4]) {
                Some(rot) => match decode_records(p.skip(5)) {
                    Ok(rest) => Ok(
                        seq![
                            Command {
                                actuator_id: p[0],
                                action: Action::Speed(spec_le16(p[2], p[3]), rot),
                            },
                        ] + rest,
                    ),
                    Err(e) => Err(e),
                },
                None => Err(DecodeError::UnknownRotation),
            }
        }
    } else {
        Err(DecodeError::UnknownTag)
    }
}

/// Joins two little-endian payload bytes into the 16-bit value they encode.
pub fn le16(lo: u8, hi: u8) -> (r: u16)
    ensures
        r == spec_le16(lo, hi),
{
    lo as u16 + (hi as u16) * 256
}

/// Decodes a frame payload into its ordered command batch, or reports the
/// first malformed record; no partial batch is returned.
pub fn decode_batch(p: &[u8]) -> (r: Result<Vec<Command>, DecodeError>)
    ensures
        match r {
            Ok(v) => decode_records(p@) == Ok::<Seq<Command>, DecodeError>(v@),
            Err(e) => decode_records(p@) == Err::<Seq<Command>, DecodeError>(e),
        },
{
    let n = p.len();
    let mut out: Vec<Command> = Vec::new();
    let mut i: usize = 0;
    proof {
        assert(p@.skip(0) =~= p@);
        match decode_records(p@) {
            Ok(rest) => {
                assert(Seq::<Command>::empty() + rest =~= rest);
            },
            Err(e) => {},
        }
    }
    while i < n
        invariant
            i <= n,
            n == p@.len(),
            match decode_records(p@.skip(i as int)) {
                Ok(rest) => decode_records(p@) == Ok::<Seq<Command>, DecodeError>(out@ + rest),
                Err(e) => decode_records(p@) == Err::<Seq<Command>, DecodeError>(e),
            },
        decreases n - i,
    {
        proof {
            assert(p@.skip(i as int).len() == n - i);
        }
        if n - i < 4 {
            return Err(DecodeError::Truncated);
        }
        let id = p[i];
        let tag = p[i + 1];
        let lo = p[i + 2];
        let hi = p[i + 3];
        proof {
            assert(p@.skip(i as int)[0] == p@[i as int]);
            assert(p@.skip(i as int)[1] == p@[i as int + 1]);
            assert(p@.skip(i as int)[2] == p@[i as int + 2]);
            assert(p@.skip(i as int)[3] == p@[i as int + 3]);
        }
        if tag == TAG_POSITION {
            let c = Command { actuator_id: id, action: Action::Position(le16(lo, hi)) };
            proof {
                assert(p@.skip(i as int).skip(4) =~= p@.skip(i as int + 4));
                let rec = seq![c];
                match decode_records(p@.skip(i as int + 4)) {
                    Ok(rest) => {
                        assert(decode_records(p@.skip(i as int)) == Ok::<
                            Seq<Command>,
                            DecodeError,
                        >(rec + rest));
                        assert((out@ + rec) + rest =~= out@ + (rec + rest));
                    },
                    Err(e) => {
                        assert(decode_records(p@.skip(i as int)) == Err::<
                            Seq<Command>,
                            DecodeError,
                        >(e));
                    },
                }
            }
            let ghost pre = out@;
            out.push(c);
            proof {
                assert(out@ =~= pre + seq![c]);
            }
            i = i + 4;
        } else if tag == TAG_SPEED {
            if n - i < 5 {
                return Err(DecodeError::Truncated);
            }
            let rb = p[i + 4];
            proof {
                assert(p@.skip(i as int)[4] == p@[i as int + 4]);
            }
            let rot: Rotation;
            if rb == ROT_CLOCKWISE {
                rot = Rotation::Clockwise;
            } else if rb == ROT_COUNTER_CLOCKWISE {
                rot = Rotation::CounterClockwise;
            } else {
                return Err(DecodeError::UnknownRotation);
            }
            let c = Command { actuator_id: id, action: Action::Speed(le16(lo, hi), rot) };
            proof {
                assert(p@.skip(i as int).skip(5) =~= p@.skip(i as int + 5));
                let rec = seq![c];
                match decode_records(p@.skip(i as int + 5)) {
                    Ok(rest) => {
                        assert(decode_records(p@.skip(i as int)) == Ok::<
                            Seq<Command>,
                            DecodeError,
                        >(rec + rest));
                        assert((out@ + rec) + rest =~= out@ + (rec + rest));
                    },
                    Err(e) => {
                        assert(decode_records(p@.skip(i as int)) == Err::<
                            Seq<Command>,
                            DecodeError,
                        >(e));
                    },
                }
            }
            let ghost pre = out@;
            out.push(c);
            proof {
                assert(out@ =~= pre + seq![c]);
            }
            i = i + 5;
        } else {
            return Err(DecodeError::UnknownTag);
        }
    }
    proof {
        assert(p@.skip(n as int) =~= Seq::<u8>::empty());
        assert(out@ + Seq::<Command>::empty() =~= out@);
    }
    Ok(out)
}

} // verus!
