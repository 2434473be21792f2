use robot_core::command::Action;
use robot_core::command::Command;
use robot_core::command::Rotation;
use robot_core::datagram::decode_datagram;
use robot_core::datagram::IngestError;

/// One datagram: a leading candidate-id byte, then the textual record.
fn datagram(lead: u8, text: &str) -> Vec<u8> {
    let mut v = vec![lead];
    v.extend_from_slice(text.as_bytes());
    v
}

#[test]
fn speed_datagram_decodes() {
    let d = datagram(3, "{\"id\":3,\"control\":\"Speed\",\"data\":512,\"rotation\":\"Clockwise\"}");
    assert_eq!(
        decode_datagram(&d),
        Ok(Command { actuator_id: 3, action: Action::Speed(512, Rotation::Clockwise) })
    );
}

#[test]
fn position_datagram_decodes() {
    let d = datagram(
        0,
        "{\"id\":0,\"control\":\"Position\",\"data\":0,\"rotation\":\"CounterClockwise\"}",
    );
    assert_eq!(decode_datagram(&d), Ok(Command { actuator_id: 0, action: Action::Position(0) }));
}

#[test]
fn embedded_id_is_authoritative() {
    let d = datagram(
        200,
        "{\"id\":7,\"control\":\"Position\",\"data\":100,\"rotation\":\"Clockwise\"}",
    );
    assert_eq!(decode_datagram(&d), Ok(Command { actuator_id: 7, action: Action::Position(100) }));
}

#[test]
fn largest_field_values_decode() {
    let d = datagram(
        1,
        "{\"id\":255,\"control\":\"Speed\",\"data\":65535,\"rotation\":\"CounterClockwise\"}",
    );
    assert_eq!(
        decode_datagram(&d),
        Ok(Command { actuator_id: 255, action: Action::Speed(65535, Rotation::CounterClockwise) })
    );
}

#[test]
fn empty_datagram_is_reported() {
    assert_eq!(decode_datagram(&[]), Err(IngestError::Empty));
}

#[test]
fn datagram_with_only_the_lead_byte_is_malformed() {
    assert_eq!(decode_datagram(&[5]), Err(IngestError::Malformed));
}

#[test]
fn leading_zero_numeral_is_malformed() {
    let d = datagram(1, "{\"id\":07,\"control\":\"Position\",\"data\":1,\"rotation\":\"Clockwise\"}");
    assert_eq!(decode_datagram(&d), Err(IngestError::Malformed));
}

#[test]
fn id_beyond_a_byte_is_malformed() {
    let d = datagram(
        1,
        "{\"id\":256,\"control\":\"Position\",\"data\":1,\"rotation\":\"Clockwise\"}",
    );
    assert_eq!(decode_datagram(&d), Err(IngestError::Malformed));
}

#[test]
fn data_beyond_sixteen_bits_is_malformed() {
    let d = datagram(
        1,
        "{\"id\":1,\"control\":\"Position\",\"data\":65536,\"rotation\":\"Clockwise\"}",
    );
    assert_eq!(decode_datagram(&d), Err(IngestError::Malformed));
}

#[test]
fn unknown_control_name_is_malformed() {
    let d = datagram(1, "{\"id\":1,\"control\":\"Torque\",\"data\":1,\"rotation\":\"Clockwise\"}");
    assert_eq!(decode_datagram(&d), Err(IngestError::Malformed));
}

#[test]
fn whitespace_is_malformed() {
    let d = datagram(
        1,
        "{ \"id\": 1, \"control\": \"Position\", \"data\": 1, \"rotation\": \"Clockwise\" }",
    );
    assert_eq!(decode_datagram(&d), Err(IngestError::Malformed));
}

#[test]
fn trailing_bytes_are_malformed() {
    let d = datagram(
        1,
        "{\"id\":1,\"control\":\"Position\",\"data\":1,\"rotation\":\"Clockwise\"}x",
    );
    assert_eq!(decode_datagram(&d), Err(IngestError::Malformed));
}

#[test]
fn truncated_datagram_is_malformed() {
    let d = datagram(1, "{\"id\":1,\"control\":\"Position\",\"data\":1");
    assert_eq!(decode_datagram(&d), Err(IngestError::Malformed));
}
