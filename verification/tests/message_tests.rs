//! Tests of the framed record codec.

use discraft::message::{Message, MessageDirection};
use discraft::partitioning::Part;

#[test]
fn test_message_direction_to_string() {
    // Test that each MessageDirection returns the correct header.
    assert_eq!(
        MessageDirection::Clientbound.to_string(),
        "**Squidward says**: "
    );
    assert_eq!(
        MessageDirection::Serverbound.to_string(),
        "**Cthulhu says**: "
    );
}

#[test]
fn test_message_direction_from_string() {
    // Create strings starting with valid headers.
    let client_str = format!("{}some payload", MessageDirection::Clientbound.to_string());
    let server_str = format!("{}some payload", MessageDirection::Serverbound.to_string());

    // Check correct parsing.
    assert_eq!(
        MessageDirection::from_string(&client_str).unwrap(),
        MessageDirection::Clientbound
    );
    assert_eq!(
        MessageDirection::from_string(&server_str).unwrap(),
        MessageDirection::Serverbound
    );

    // Test with an invalid header.
    let invalid_str = "Invalid header: payload";
    assert!(MessageDirection::from_string(invalid_str).is_err());
}

#[test]
fn test_try_from_for_message_direction() {
    let s = format!("{}data", MessageDirection::Clientbound.to_string());
    let result = MessageDirection::try_from(s.as_str());
    assert_eq!(result.unwrap(), MessageDirection::Clientbound);
}

#[test]
fn test_payload_conversion() {
    // Test that encoding and then decoding recovers the original bytes.
    let original_bytes = vec![104, 101, 108, 108, 111]; // "hello"
    let encoded = Message::payload_bytes_to_string(&original_bytes);
    let decoded = Message::payload_string_to_bytes(&encoded).unwrap();
    assert_eq!(original_bytes, decoded);
}

#[test]
fn test_make_string_length() {
    let direction = MessageDirection::Clientbound;
    let part = Part::new(1, 1).unwrap();
    let payload = b"test payload";
    let (length_str, msg_body) = Message::make_string(&direction, &part, payload);

    // The length string should contain the length and the delimiter.
    let mut parts = length_str.split(Message::LENGTH_DELIMITER);
    let len_number_str = parts.next().unwrap();
    let len_number = len_number_str.parse::<usize>().unwrap();

    // Ensure the reported length matches the message body length.
    assert_eq!(len_number, msg_body.len());

    // The message body should begin with the header and contain the partition and encoded payload.
    assert!(msg_body.starts_with(MessageDirection::Clientbound.to_string()));
    assert!(msg_body.contains(&part.to_string()));
    let encoded_payload = Message::payload_bytes_to_string(payload);
    assert!(msg_body.contains(&encoded_payload));
}

#[test]
fn test_from_bytes() {
    let direction = MessageDirection::Serverbound;
    let payload = b"sample payload";
    let message = Message::from_bytes(payload, direction);

    // Verify the direction and payload.
    assert_eq!(message.direction, direction);
    assert_eq!(message.payload(), payload);

    // Ensure the complete message string contains the proper header and encoded payload.
    let header = direction.to_string();
    assert!(message.to_string().contains(header));
    let encoded_payload = Message::payload_bytes_to_string(payload);
    assert!(message.to_string().contains(&encoded_payload));
}

#[test]
fn test_halt_message() {
    let halt_msg = Message::make_halt_message(MessageDirection::Clientbound);

    // Check that the halt message is recognized.
    assert!(Message::is_halt_message(&halt_msg));

    // Verify that the payload is exactly the reserved byte run.
    assert_eq!(halt_msg.payload(), &[3u8, 4, 4, 0, 1, 1, 1, 1]);
    let payload_decoded = Message::payload_bytes_to_string(halt_msg.payload());
    assert_eq!(payload_decoded, "03 04 04 00 01 01 01 01");
}

#[test]
fn test_from_string_aggregation() {
    // Construct a valid message string using make_string.
    let direction = MessageDirection::Clientbound;
    let part = Part::new(1, 1).unwrap();
    let payload = b"aggregated message";
    let (length_str, msg_body) = Message::make_string(&direction, &part, payload);
    let full_message = format!("{}{}", length_str, msg_body);

    // Use the Aggregator to disaggregate the message.
    let messages = Message::from_string(&full_message).unwrap();
    assert_eq!(messages.len(), 1);

    // Validate that the parsed message has the expected direction and payload.
    let message = &messages[0];
    assert_eq!(message.direction, direction);
    assert_eq!(message.payload(), payload);
}
