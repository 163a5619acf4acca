//! Tests of partitioning, merging, aggregation and the part descriptor.

use discraft::message::{Message, MessageDirection};
use discraft::partitioning::{Aggregator, Part, Partitioner};
use rand::{Rng, RngExt};

// Helper function to create a Message from a given payload string.
fn create_message(payload: &str, direction: MessageDirection) -> Message {
    Message::from_bytes(payload.as_bytes(), direction)
}

#[test]
fn test_partition_message_no_split() {
    // A short message should not be split.
    let payload = "Short message";
    let message = create_message(payload, MessageDirection::Clientbound);
    // Use a limit that is very generous compared to the message length.
    let limit = 1000;
    let parts = Partitioner::partition(message, limit).expect("Partitioning failed");
    assert_eq!(parts.len(), 1);

    // Verify that the payload (after decoding) equals the original.
    let encoded_payload = Message::payload_bytes_to_string(parts[0].payload());
    let decoded_bytes =
        Message::payload_string_to_bytes(&encoded_payload).expect("Decoding failed");
    assert_eq!(decoded_bytes, payload.as_bytes());
}

#[test]
fn test_partition_message_split() {
    // A longer payload should be partitioned into multiple parts.
    let payload = &"x".repeat(10000);
    let message = create_message(payload, MessageDirection::Serverbound);
    // Set a limit small enough to force splitting.
    let limit = 2000;
    let parts = Partitioner::partition(message, limit).expect("Partitioning failed");
    assert!(parts.len() > 1);

    // Reassemble the payload from the parts.
    let mut reconstructed = Vec::new();
    for part in parts {
        reconstructed.extend_from_slice(part.payload());
    }
    assert_eq!(reconstructed, payload.as_bytes());
}

#[test]
fn test_partition_message_split2() {
    for _ in 0..100 {
        let byte_count: usize = rand::rng().random_range(2001..17_000);
        let mut data = Vec::with_capacity(byte_count);
        data.resize(byte_count, 0);
        rand::rng().fill_bytes(&mut data);

        let message = Message::from_bytes(&data, MessageDirection::Serverbound);
        let messages = Partitioner::partition(message, 2000);
        assert!(
            messages.is_ok(),
            "Function returned an error: {:?}",
            messages
        );
    }
}

#[test]
fn test_partition_invalid_limit_zero() {
    let payload = "Test payload";
    let message = create_message(payload, MessageDirection::Clientbound);
    let result = Partitioner::partition(message, 0);
    assert!(result.is_err());
}

#[test]
fn test_partition_limit_too_small_for_header() {
    // The limit is set smaller than the minimum required header size.
    let payload = "Test";
    let message = create_message(payload, MessageDirection::Clientbound);
    let result = Partitioner::partition(message, 1);
    assert!(result.is_err());
}

#[test]
fn test_merge_messages() {
    // Merge two messages and verify the payload concatenation.
    let payload1 = "Hello, ";
    let payload2 = "World!";
    let msg1 = create_message(payload1, MessageDirection::Clientbound);
    let msg2 = create_message(payload2, MessageDirection::Clientbound);
    let merged = Partitioner::merge(&[msg1, msg2]).expect("Merge failed");

    // Decode the merged payload.
    let merged_encoded = Message::payload_bytes_to_string(merged.payload());
    let merged_bytes =
        Message::payload_string_to_bytes(&merged_encoded).expect("Decoding failed");
    let expected: Vec<u8> = [payload1.as_bytes(), payload2.as_bytes()].concat();
    assert_eq!(merged_bytes, expected);
}

#[test]
fn test_empty_string_partition() {
    let input = "";
    let message = Message::from_string(input);

    assert!(message.is_ok(), "Not Ok()");
}

#[test]
fn test_merge_messages2() {
    for _ in 0..300 {
        let mut messages = Vec::new();
        for _ in 0..100 {
            let byte_count: usize = rand::rng().random_range(1..324);
            let mut data = Vec::with_capacity(byte_count);
            data.resize(byte_count, 0);
            rand::rng().fill_bytes(&mut data);

            // Make a message with random payload.
            let random_msg = Message::from_bytes(&data, MessageDirection::Clientbound);

            let msg_hex = random_msg.to_string().to_owned();

            let messages_vec =
                Message::from_string(random_msg.to_string()).expect("Failed to merge messages");
            if let Some(msg) = messages_vec.first() {
                // Get the first
                messages.push(msg.clone());
            } else {
                assert!(
                    false,
                    "Message is None. str: {msg_hex:?} / byte_count: {byte_count:?} / data: {data:?}"
                );
            }
        }

        let _messages_merged = Partitioner::merge(&messages).unwrap();
    }
}

#[test]
fn test_merge_empty_parts() {
    let result = Partitioner::merge(&Vec::<Message>::new());
    assert!(result.is_err());
}

#[test]
fn test_aggregate_and_disaggregate() {
    // Create several messages.
    let payloads = vec!["Part one.", "Part two.", "Part three."];
    let messages: Vec<Message> = payloads
        .iter()
        .map(|p| create_message(p, MessageDirection::Serverbound))
        .collect();

    // Aggregate the messages.
    let aggregated_strings = Aggregator::aggregate(&messages).expect("Aggregation failed");
    assert!(!aggregated_strings.is_empty());

    // Disaggregate each aggregated string.
    let mut disaggregated_messages = Vec::new();
    for agg in aggregated_strings {
        let parts = Aggregator::disaggregate(&agg).expect("Disaggregation failed");
        disaggregated_messages.extend(parts);
    }

    // Reconstruct the payload from the disaggregated messages.
    let mut reconstructed = Vec::new();
    for msg in disaggregated_messages {
        reconstructed.extend_from_slice(msg.payload());
    }
    let mut expected = Vec::new();
    for msg in messages {
        expected.extend_from_slice(msg.payload());
    }
    assert_eq!(reconstructed, expected);
}

#[test]
fn test_disaggregate_invalid_string() {
    // An aggregate string that does not follow the proper format should error.
    let invalid_aggregate = "invalid message without proper length delimiter";
    let result = Aggregator::disaggregate(invalid_aggregate);
    assert!(result.is_err());
}

#[test]
fn test_part_from_string_and_to_string() {
    // Verify that converting a Part to a string and back works correctly.
    let part = Part::new(1, 10).expect("Part creation failed");
    let part_str = part.to_string();
    let parsed_part = Part::from_string(&part_str).expect("Parsing Part from string failed");
    assert_eq!(part.current(), parsed_part.current());
    assert_eq!(part.total(), parsed_part.total());
}

#[test]
fn test_part_from_string_invalid() {
    // Test several invalid partition strings.
    let invalid_strs = vec![
        "1/10",        // Not zero-padded and missing trailing space.
        "01/10/extra", // Extra token.
        "0110",        // Missing delimiter.
        "01/",         // Missing total.
        "/10",         // Missing current.
    ];
    for s in invalid_strs {
        assert!(Part::from_string(s).is_err());
    }
}

#[test]
fn test_get_standard_string_length() {
    // The standard encoded Part (e.g., "01/01 ") should have a fixed length.
    let len = Part::get_standard_string_length();
    // Using the fixed two-digit/slash/two-digit/space form the expected length is 6.
    assert_eq!(len, 6);
}
