//! Tests of the plain tagged record form.

use discraft::tagged::{Message, MessageDirection};

const CLIENTBOUND_HEADER: &str = "**Cthulhu says**: ";
const SERVERBOUND_HEADER: &str = "**Squidward says**: ";

#[test]
fn test_create_message_from_bytes_valid() {
    let data: &[u8] = &[1, 2, 3, 127, 128, 255, 0];
    let direction = MessageDirection::Clientbound;

    let message = Message::from_bytes(data, direction);

    let message_data = &message.data;
    let message_direction = &message.direction;
    // make sure the function does not panic
    let _ = message.to_string_representation();

    assert_eq!(data, message_data.as_slice());
    assert_eq!(&direction, message_direction);
}

#[test]
fn test_create_message_from_string_valid() {
    // Test data and expected properties
    let data: &[u8] = &[1, 2, 3, 127, 128, 255, 0];
    let direction = MessageDirection::Serverbound;

    // Convert data to message and then to string
    let message = Message::from_bytes(data, direction);
    let message_string = message.to_string_representation();

    // Convert the string back to a message
    let other_message = Message::from_string(message_string).unwrap();

    // Validate that data and direction match the original
    assert_eq!(
        data,
        other_message.data.as_slice(),
        "Data mismatch after round-trip conversion."
    );
    assert_eq!(
        direction, other_message.direction,
        "Direction mismatch after round-trip conversion."
    );

    // Ensure text representation is consistent
    let reconstructed_string = other_message.to_string_representation();
    assert_eq!(
        message_string, reconstructed_string,
        "String representation mismatch after reconstruction."
    );
}

#[test]
fn test_create_message_from_bytes_empty_valid() {
    let data: &[u8] = &[];
    let direction = MessageDirection::Serverbound;

    let message = Message::from_bytes(data, direction);

    assert_eq!(message.data.as_slice(), data);
    assert_eq!(message.direction, direction);
    assert_eq!(message.to_string_representation(), SERVERBOUND_HEADER);
}

#[test]
fn test_create_message_from_string_empty_valid() {
    let txt = CLIENTBOUND_HEADER;

    let message = Message::from_string(txt).unwrap();

    assert!(message.data.is_empty());
    assert_eq!(message.direction, MessageDirection::Clientbound);
    assert_eq!(message.text_representation, txt);
}

#[test]
#[should_panic]
fn test_create_message_from_string_invalid_header() {
    let txt = SERVERBOUND_HEADER.to_string() + ". FF 00 44 F3 4F AA";
    let _ = Message::from_string(&txt).unwrap();
}

#[test]
#[should_panic]
fn test_create_message_from_string_invalid_hex() {
    // G is not hex
    let txt = SERVERBOUND_HEADER.to_string() + "FF 00 44 F3 4F AA 4G";
    let _ = Message::from_string(&txt).unwrap();
}
