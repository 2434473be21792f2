use robot_core::command::Action;
use robot_core::command::Command;
use robot_core::command::Rotation;
use robot_core::datagram::IngestError;
use robot_core::receiver::BufferSlot;
use robot_core::robot::Robot;

/// The wire bytes of one frame: magic, declared length little-endian, id,
/// payload.
fn frame_stream(id: u8, payload: &[u8]) -> Vec<u8> {
    let declared = (payload.len() + 1) as u16;
    let mut v = vec![0xAC, 0xDC, 0xAB, 0xBA];
    v.push((declared % 256) as u8);
    v.push((declared / 256) as u8);
    v.push(id);
    v.extend_from_slice(payload);
    v
}

#[test]
fn buffer_to_commands_in_payload_order() {
    let mut robot = Robot::new();
    let payload = [1, 1, 0x64, 0x00, 2, 2, 0x32, 0x00, 0];
    let cmds = robot.process_buffer(&frame_stream(0x11, &payload));
    assert_eq!(
        cmds,
        vec![
            Command { actuator_id: 1, action: Action::Position(100) },
            Command { actuator_id: 2, action: Action::Speed(50, Rotation::Clockwise) },
        ]
    );
    assert_eq!(robot.decode_errors, 0);
}

#[test]
fn two_frames_in_one_buffer_keep_their_order() {
    let mut robot = Robot::new();
    let mut stream = frame_stream(1, &[5, 1, 0x01, 0x00]);
    stream.extend_from_slice(&frame_stream(2, &[6, 1, 0x02, 0x00]));
    let cmds = robot.process_buffer(&stream);
    assert_eq!(
        cmds,
        vec![
            Command { actuator_id: 5, action: Action::Position(1) },
            Command { actuator_id: 6, action: Action::Position(2) },
        ]
    );
}

#[test]
fn malformed_frame_is_counted_and_skipped() {
    let mut robot = Robot::new();
    let mut stream = frame_stream(1, &[5, 9, 0x01, 0x00]);
    stream.extend_from_slice(&frame_stream(2, &[6, 1, 0x02, 0x00]));
    let cmds = robot.process_buffer(&stream);
    assert_eq!(cmds, vec![Command { actuator_id: 6, action: Action::Position(2) }]);
    assert_eq!(robot.decode_errors, 1);
}

#[test]
fn malformed_datagram_leaves_queued_frames_alone() {
    let mut robot = Robot::new();
    robot.decoder.feed_buffer(&frame_stream(4, &[7, 1, 0x2A, 0x00]));
    let r = robot.process_datagram(&[1, b'{', b'x']);
    assert_eq!(r, Err(IngestError::Malformed));
    assert_eq!(robot.decode_errors, 1);
    let cmds = robot.process_buffer(&[]);
    assert_eq!(cmds, vec![Command { actuator_id: 7, action: Action::Position(42) }]);
}

#[test]
fn good_datagram_flows_through_the_robot() {
    let mut robot = Robot::new();
    let mut d = vec![7u8];
    d.extend_from_slice(
        "{\"id\":7,\"control\":\"Speed\",\"data\":100,\"rotation\":\"CounterClockwise\"}"
            .as_bytes(),
    );
    let r = robot.process_datagram(&d);
    assert_eq!(
        r,
        Ok(Command { actuator_id: 7, action: Action::Speed(100, Rotation::CounterClockwise) })
    );
    assert_eq!(robot.decode_errors, 0);
}

#[test]
fn capture_buffers_alternate_strictly() {
    let mut robot = Robot::new();
    assert_eq!(robot.receiver.filling, BufferSlot::First);
    let ready = robot.receiver.complete();
    assert_eq!(ready, BufferSlot::First);
    assert_eq!(robot.receiver.filling, BufferSlot::Second);
    let ready = robot.receiver.complete();
    assert_eq!(ready, BufferSlot::Second);
    assert_eq!(robot.receiver.filling, BufferSlot::First);
}

#[test]
fn heartbeat_inverts_on_every_tick() {
    let mut robot = Robot::new();
    assert!(!robot.heartbeat.on);
    robot.heartbeat.toggle();
    assert!(robot.heartbeat.on);
    robot.heartbeat.toggle();
    assert!(!robot.heartbeat.on);
}
