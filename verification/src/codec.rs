//! The bus transmitter's encoding side: every command is serialised for
//! the shared actuator bus by the external actuator codec.
//!
//! The codec's wire format is out of scope here: each message is a pure
//! function of the request's plain fields, so the messages are named
//! rather than restated, and [`encode_command`] is pinned to those names.
//! Writing the bytes to the bus register is hardware work and stays
//! outside the crate.

use vstd::prelude::*;

use crate::command::Action;
use crate::command::Command;
use crate::command::Rotation;

verus! {

/// The bus message the actuator codec builds for a position request.
pub uninterp spec fn position_message_of(id: u8, position: u16) -> Seq<u8>;

/// The bus message the actuator codec builds for a speed request.
pub uninterp spec fn speed_message_of(id: u8, speed: u16, clockwise: bool) -> Seq<u8>;

/// The bus message the actuator codec builds for a reboot request.
pub uninterp spec fn reboot_message_of(id: u8) -> Seq<u8>;

/// The bus message the actuator codec builds to enable torque.
pub uninterp spec fn torque_on_message_of(id: u8) -> Seq<u8>;

/// Relies on drs_0x01::Servo::set_position: the message bytes are a
/// function of the servo id and the requested position alone.
#[verifier::external_body]
fn encode_position(id: u8, position: u16) -> (r: Vec<u8>)
    ensures
        r@ == position_message_of(id, position),
{
    drs_0x01::Servo::new(id).set_position(position).to_vec()
}

/// Relies on drs_0x01::Servo::set_speed: the message bytes are a function
/// of the servo id, the requested speed and the rotation sense alone.
#[verifier::external_body]
fn encode_speed(id: u8, speed: u16, clockwise: bool) -> (r: Vec<u8>)
    ensures
        r@ == speed_message_of(id, speed, clockwise),
{
    let rotation = if clockwise {
        drs_0x01::Rotation::Clockwise
    } else {
        drs_0x01::Rotation::CounterClockwise
    };
    drs_0x01::Servo::new(id).set_speed(speed, rotation).to_vec()
}

/// Relies on drs_0x01::Servo::reboot: the message bytes are a function of
/// the servo id alone.
#[verifier::external_body]
fn encode_reboot(id: u8) -> (r: Vec<u8>)
    ensures
        r@ == reboot_message_of(id),
{
    drs_0x01::Servo::new(id).reboot().to_vec()
}

/// Relies on drs_0x01::Servo::enable_torque: the message bytes are a
/// function of the servo id alone.
#[verifier::external_body]
fn encode_enable_torque(id: u8) -> (r: Vec<u8>)
    ensures
        r@ == torque_on_message_of(id),
{
    drs_0x01::Servo::new(id).enable_torque().to_vec()
}

/// The exact byte sequence the bus transmitter sends for a command.
pub open spec fn encoding_of(c: Command) -> Seq<u8> {
    match c.action {
        Action::Position(p) => position_message_of(c.actuator_id, p),
        Action::Speed(sp, rot) => speed_message_of(
            c.actuator_id,
            sp,
            rot == Rotation::Clockwise,
        ),
    }
}

/// Serialises one command through the actuator codec; the bus writes
/// these bytes one at a time, outside the crate.
pub fn encode_command(c: &Command) -> (r: Vec<u8>)
    ensures
        r@ == encoding_of(*c),
{
    match c.action {
        Action::Position(p) => encode_position(c.actuator_id, p),
        Action::Speed(sp, rot) => encode_speed(c.actuator_id, sp, rot == Rotation::Clockwise),
    }
}

/// The two messages sent once at start-up, in sending order: reboot the
/// addressed servos, then enable their torque.
pub fn startup_messages(id: u8) -> (r: (Vec<u8>, Vec<u8>))
    ensures
        r.0@ == reboot_message_of(id),
        r.1@ == torque_on_message_of(id),
{
    (encode_reboot(id), encode_enable_torque(id))
}

} // verus!
