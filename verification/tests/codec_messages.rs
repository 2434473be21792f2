use robot_core::codec::encode_command;
use robot_core::codec::startup_messages;
use robot_core::command::Action;
use robot_core::command::Command;
use robot_core::command::Rotation;

#[test]
fn position_command_encodes_like_the_codec() {
    let expected: Vec<u8> = drs_0x01::Servo::new(5).set_position(100).to_vec();
    let got = encode_command(&Command { actuator_id: 5, action: Action::Position(100) });
    assert_eq!(got, expected);
    assert!(!got.is_empty());
}

#[test]
fn clockwise_speed_command_encodes_like_the_codec() {
    let expected: Vec<u8> =
        drs_0x01::Servo::new(9).set_speed(512, drs_0x01::Rotation::Clockwise).to_vec();
    let got =
        encode_command(&Command { actuator_id: 9, action: Action::Speed(512, Rotation::Clockwise) });
    assert_eq!(got, expected);
}

#[test]
fn counter_clockwise_speed_command_encodes_like_the_codec() {
    let expected: Vec<u8> =
        drs_0x01::Servo::new(9).set_speed(512, drs_0x01::Rotation::CounterClockwise).to_vec();
    let got = encode_command(&Command {
        actuator_id: 9,
        action: Action::Speed(512, Rotation::CounterClockwise),
    });
    assert_eq!(got, expected);
}

#[test]
fn rotation_sense_changes_the_message() {
    let cw =
        encode_command(&Command { actuator_id: 9, action: Action::Speed(512, Rotation::Clockwise) });
    let ccw = encode_command(&Command {
        actuator_id: 9,
        action: Action::Speed(512, Rotation::CounterClockwise),
    });
    assert_ne!(cw, ccw);
}

#[test]
fn startup_messages_match_the_codec() {
    let (reboot, torque) = startup_messages(0xFE);
    let expected_reboot: Vec<u8> = drs_0x01::Servo::new(0xFE).reboot().to_vec();
    let expected_torque: Vec<u8> = drs_0x01::Servo::new(0xFE).enable_torque().to_vec();
    assert_eq!(reboot, expected_reboot);
    assert_eq!(torque, expected_torque);
    assert_ne!(reboot, torque);
}
