use robot_core::command::decode_batch;
use robot_core::command::le16;
use robot_core::command::Action;
use robot_core::command::Command;
use robot_core::command::DecodeError;
use robot_core::command::Rotation;
use robot_core::command::ROT_CLOCKWISE;
use robot_core::command::ROT_COUNTER_CLOCKWISE;
use robot_core::command::TAG_POSITION;
use robot_core::command::TAG_SPEED;

#[test]
fn le16_joins_little_endian_bytes() {
    assert_eq!(le16(0x34, 0x12), 0x1234);
    assert_eq!(le16(0xFF, 0xFF), 0xFFFF);
    assert_eq!(le16(0, 0), 0);
}

#[test]
fn two_records_decode_in_order() {
    let payload = [
        1,
        TAG_POSITION,
        0x64,
        0x00,
        2,
        TAG_SPEED,
        0x32,
        0x00,
        ROT_CLOCKWISE,
    ];
    let batch = decode_batch(&payload).expect("well-formed batch");
    assert_eq!(
        batch,
        vec![
            Command { actuator_id: 1, action: Action::Position(100) },
            Command { actuator_id: 2, action: Action::Speed(50, Rotation::Clockwise) },
        ]
    );
}

#[test]
fn counter_clockwise_speed_record_decodes() {
    let payload = [9, TAG_SPEED, 0x00, 0x02, ROT_COUNTER_CLOCKWISE];
    let batch = decode_batch(&payload).expect("well-formed batch");
    assert_eq!(
        batch,
        vec![Command { actuator_id: 9, action: Action::Speed(512, Rotation::CounterClockwise) }]
    );
}

#[test]
fn empty_payload_is_an_empty_batch() {
    assert_eq!(decode_batch(&[]), Ok(vec![]));
}

#[test]
fn truncated_record_rejects_the_whole_batch() {
    let payload = [1, TAG_POSITION, 0x64, 0x00, 2, TAG_POSITION, 0x32];
    assert_eq!(decode_batch(&payload), Err(DecodeError::Truncated));
}

#[test]
fn truncated_speed_record_rejects_the_whole_batch() {
    let payload = [1, TAG_SPEED, 0x64, 0x00];
    assert_eq!(decode_batch(&payload), Err(DecodeError::Truncated));
}

#[test]
fn unknown_tag_rejects_the_whole_batch() {
    let payload = [1, 9, 0x64, 0x00];
    assert_eq!(decode_batch(&payload), Err(DecodeError::UnknownTag));
}

#[test]
fn unknown_rotation_rejects_the_whole_batch() {
    let payload = [1, TAG_SPEED, 0x64, 0x00, 9];
    assert_eq!(decode_batch(&payload), Err(DecodeError::UnknownRotation));
}

#[test]
fn no_partial_batch_survives_a_bad_tail() {
    let payload = [1, TAG_POSITION, 0x64, 0x00, 2, 7, 0x32, 0x00];
    assert_eq!(decode_batch(&payload), Err(DecodeError::UnknownTag));
}
