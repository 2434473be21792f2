//! Verified core of a motion-controller ingestion pipeline.
//!
//! Bytes arriving on a continuous serial link are framed by a resynchronising
//! state machine ([`decoder::FrameDecoder`]), frames are unpacked into ordered
//! batches of actuator commands ([`command`]), network datagrams carrying a
//! single textual command are parsed ([`datagram`]), and every command is
//! serialised for the actuator bus through an external codec ([`codec`]).
//! The [`robot::Robot`] type ties the pieces together as the state of the
//! single cooperative dispatch loop; the hardware around it (serial capture,
//! network chip, bus register writes) lives outside this crate and only hands
//! plain byte buffers in and out.

pub mod codec;
pub mod command;
pub mod datagram;
pub mod decoder;
pub mod frame;
pub mod receiver;
pub mod robot;
