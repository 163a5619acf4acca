//! Scenario tests for the protocol as a whole: round trips, the fragment
//! budget arithmetic, reassembly, eviction, and halt propagation.

use discraft::cache::{LaneCache, MESSAGE_EXPIRATION_MILLIS};
use discraft::message::{Message, MessageDirection, MessageError};
use discraft::partitioning::{Aggregator, Part, Partitioner};
use discraft::relay::{
    message_direction_matches_side, next_channel_index, prepare_outgoing, Relay, RelayAction,
};
use discraft::cli::Mode;
use discraft::tagged;

/// Builds a fragment record with an explicit part descriptor.
fn fragment(payload: &[u8], direction: MessageDirection, current: usize, total: usize) -> Message {
    let part = Part::new(current, total).unwrap();
    let (length, body) = Message::make_string(&direction, &part, payload);
    let mut msgs = Message::from_string(&format!("{}{}", length, body)).unwrap();
    assert_eq!(msgs.len(), 1);
    msgs.remove(0)
}

#[test]
fn round_trip_both_directions() {
    for direction in [MessageDirection::Clientbound, MessageDirection::Serverbound] {
        let payload: Vec<u8> = (0u8..=255).collect();
        let message = Message::from_bytes(&payload, direction);
        let decoded = Message::from_string(message.to_string()).unwrap();
        assert_eq!(decoded.len(), 1);
        assert_eq!(decoded[0].direction, direction);
        assert_eq!(decoded[0].part.current(), 1);
        assert_eq!(decoded[0].part.total(), 1);
        assert_eq!(decoded[0].payload(), payload.as_slice());
        assert_eq!(decoded[0].to_string(), message.to_string());
    }
}

#[test]
fn round_trip_empty_payload() {
    let message = Message::from_bytes(&[], MessageDirection::Serverbound);
    let decoded = Message::from_string(message.to_string()).unwrap();
    assert_eq!(decoded.len(), 1);
    assert!(decoded[0].payload().is_empty());
    assert_eq!(decoded[0].direction, MessageDirection::Serverbound);
}

#[test]
fn partition_then_merge_restores_payload() {
    let payload: Vec<u8> = (0..4096u32).map(|i| (i % 251) as u8).collect();
    let message = Message::from_bytes(&payload, MessageDirection::Clientbound);
    let parts = Partitioner::partition(message, 300).expect("Partitioning failed");
    assert!(parts.len() > 1);
    let total = parts.len();
    for (i, p) in parts.iter().enumerate() {
        assert_eq!(p.part.current(), i + 1);
        assert_eq!(p.part.total(), total);
        assert!(total <= 255);
        assert!(p.to_string().len() <= 300);
    }
    let merged = Partitioner::merge(&parts).expect("Merge failed");
    assert_eq!(merged.payload(), payload.as_slice());
    assert_eq!(merged.part.total(), 1);
}

#[test]
fn partition_boundaries() {
    let message = Message::from_bytes(b"Test payload", MessageDirection::Clientbound);
    // limit 0 fails with Partitioning.
    let r = Partitioner::partition(message.clone(), 0);
    assert!(matches!(r, Err(MessageError::Partitioning(_))));
    // a limit at most the header overhead fails with Partitioning; the
    // header here is "30~" plus the 20-character tag plus the 6-character
    // part field, 29 characters in all.
    let r = Partitioner::partition(message.clone(), 29);
    assert!(matches!(r, Err(MessageError::Partitioning(_))));
    // one payload byte needs two characters: a budget of one more still fails.
    let r = Partitioner::partition(message.clone(), 30);
    assert!(matches!(r, Err(MessageError::Partitioning(_))));
    // two more characters fit the first whole byte.
    let parts = Partitioner::partition(message, 31).unwrap();
    assert_eq!(parts.len(), 12);
}

#[test]
fn part_bounds() {
    assert!(matches!(Part::new(0, 5), Err(MessageError::Partitioning(_))));
    assert!(matches!(Part::new(6, 5), Err(MessageError::Partitioning(_))));
    assert!(matches!(Part::new(1, 256), Err(MessageError::Partitioning(_))));
    assert!(Part::new(1, 255).is_ok());
    assert!(Part::new(255, 255).is_ok());
}

#[test]
fn partition_scenario_ten_thousand_bytes() {
    // 10,000 identical bytes under a 2,000-character budget.
    let payload = vec![0x78u8; 10_000];
    let message = Message::from_bytes(&payload, MessageDirection::Serverbound);
    let encoded_len = Message::payload_bytes_to_string(&payload).len();
    assert_eq!(encoded_len, 29_999);
    // The header overhead: "30023~" (6) + tag (18) + part field (6) = 30.
    let overhead = 30;
    let slice_size = 2000 - overhead;
    let expected_total = (encoded_len + slice_size - 1) / slice_size;
    assert_eq!(expected_total, 16);
    let parts = Partitioner::partition(message, 2000).expect("Partitioning failed");
    assert_eq!(parts.len(), expected_total);
    let mut reconstructed = Vec::new();
    for p in &parts {
        assert!(p.to_string().len() <= 2000);
        assert_eq!(p.part.total(), expected_total);
        reconstructed.extend_from_slice(p.payload());
    }
    assert_eq!(reconstructed, payload);
}

#[test]
fn aggregate_scenario_three_parts_budget_100() {
    // Three small whole records under a budget of 100 characters.
    let payloads = ["Part one.", "Part two.", "Part three."];
    let messages: Vec<Message> = payloads
        .iter()
        .map(|p| Message::from_bytes(p.as_bytes(), MessageDirection::Serverbound))
        .collect();
    let packed = Aggregator::aggregate_with_budget(&messages, 100).expect("Aggregation failed");
    for text in &packed {
        assert!(text.len() <= 100);
    }
    let mut unpacked: Vec<Message> = Vec::new();
    for text in &packed {
        unpacked.extend(Aggregator::disaggregate(text).expect("Disaggregation failed"));
    }
    assert_eq!(unpacked.len(), messages.len());
    for (got, want) in unpacked.iter().zip(messages.iter()) {
        assert_eq!(got.payload(), want.payload());
        assert_eq!(got.direction, want.direction);
        assert_eq!(got.part.current(), want.part.current());
        assert_eq!(got.part.total(), want.part.total());
    }
}

#[test]
fn aggregate_keeps_empty_payload_records() {
    // A whole record with an empty payload survives packing and unpacking,
    // in its place among the others.
    let messages = vec![
        Message::from_bytes(b"before", MessageDirection::Clientbound),
        Message::from_bytes(&[], MessageDirection::Clientbound),
        Message::from_bytes(b"after", MessageDirection::Clientbound),
    ];
    let packed = Aggregator::aggregate(&messages).expect("Aggregation failed");
    let mut unpacked: Vec<Message> = Vec::new();
    for text in &packed {
        unpacked.extend(Aggregator::disaggregate(text).expect("Disaggregation failed"));
    }
    assert_eq!(unpacked.len(), 3);
    assert_eq!(unpacked[0].payload(), b"before");
    assert!(unpacked[1].payload().is_empty());
    assert_eq!(unpacked[2].payload(), b"after");
    for (got, want) in unpacked.iter().zip(messages.iter()) {
        assert_eq!(got.direction, want.direction);
        assert_eq!(got.part.current(), want.part.current());
        assert_eq!(got.part.total(), want.part.total());
    }
    // Alone as well: nothing of the run is lost.
    let lone = vec![Message::from_bytes(&[], MessageDirection::Serverbound)];
    let packed = Aggregator::aggregate(&lone).expect("Aggregation failed");
    assert_eq!(packed.len(), 1);
    let unpacked = Aggregator::disaggregate(&packed[0]).expect("Disaggregation failed");
    assert_eq!(unpacked.len(), 1);
    assert!(unpacked[0].payload().is_empty());
}

#[test]
fn tagged_reader_rejects_bad_hex() {
    // The tagged reader succeeds only when the rest of the text is valid
    // hexadecimal payload text.
    let bad = "**Cthulhu says**: FF 0G";
    assert!(matches!(
        tagged::Message::from_string(bad),
        Err(tagged::MessageError::HexConversionError(_))
    ));
    let odd = "**Squidward says**: ABC";
    assert!(matches!(
        tagged::Message::from_string(odd),
        Err(tagged::MessageError::HexConversionError(_))
    ));
}

#[test]
fn disaggregate_error_kinds() {
    // No digits before the delimiter: an aggregation error.
    assert!(matches!(
        Aggregator::disaggregate("~rest"),
        Err(MessageError::Aggregation(_))
    ));
    // A declared length that overruns the text: an aggregation error.
    assert!(matches!(
        Aggregator::disaggregate("999~**Cthulhu says**: 01/01 AB"),
        Err(MessageError::Aggregation(_))
    ));
    // A valid length but no known direction tag.
    assert!(matches!(
        Aggregator::disaggregate("5~xxxxx"),
        Err(MessageError::Direction(_))
    ));
    // A valid tag but a malformed part field.
    assert!(matches!(
        Aggregator::disaggregate("24~**Cthulhu says**: 0Z/01 "),
        Err(MessageError::Partitioning(_))
    ));
    // A valid header but a payload that is not hexadecimal.
    assert!(matches!(
        Aggregator::disaggregate("26~**Cthulhu says**: 01/01 ZZ"),
        Err(MessageError::Decode(_))
    ));
    // A payload with an odd number of digits fails to decode.
    assert!(matches!(
        Message::payload_string_to_bytes("ABC"),
        Err(MessageError::Decode(_))
    ));
    // Merging nothing is its own error.
    assert!(matches!(
        Partitioner::merge(&[]),
        Err(MessageError::Merging(_))
    ));
}

#[test]
fn lane_accepts_run_and_merges() {
    let mut lane = LaneCache::new();
    let p1 = fragment(b"ab", MessageDirection::Clientbound, 1, 3);
    let p2 = fragment(b"cd", MessageDirection::Clientbound, 2, 3);
    let p3 = fragment(b"e", MessageDirection::Clientbound, 3, 3);
    assert!(lane.accept(p1, 1_000).unwrap().is_none());
    assert!(lane.accept(p2, 1_050).unwrap().is_none());
    let merged = lane.accept(p3, 1_100).unwrap().expect("run should complete");
    assert_eq!(merged.payload(), b"abcde");
    assert_eq!(merged.part.total(), 1);
    assert!(lane.is_empty());
}

#[test]
fn lane_restarts_on_mismatch() {
    let mut lane = LaneCache::new();
    let p1 = fragment(b"ab", MessageDirection::Clientbound, 1, 3);
    // A fragment of a different run (other total) discards the stale run.
    let q1 = fragment(b"xy", MessageDirection::Clientbound, 1, 2);
    let q2 = fragment(b"z", MessageDirection::Clientbound, 2, 2);
    assert!(lane.accept(p1, 10).unwrap().is_none());
    assert!(lane.accept(q1, 20).unwrap().is_none());
    let merged = lane.accept(q2, 30).unwrap().expect("new run should complete");
    assert_eq!(merged.payload(), b"xyz");
}

#[test]
fn lane_ttl_eviction() {
    let mut lane = LaneCache::new();
    let p1 = fragment(b"ab", MessageDirection::Clientbound, 1, 3);
    assert!(lane.accept(p1, 1_000).unwrap().is_none());
    assert!(!lane.is_empty());
    // A sweep before the deadline keeps the run.
    lane.evict_stale(1_000 + MESSAGE_EXPIRATION_MILLIS - 1);
    assert!(!lane.is_empty());
    // A sweep at the deadline evicts it; the lane polls as empty.
    lane.evict_stale(1_000 + MESSAGE_EXPIRATION_MILLIS);
    assert!(lane.is_empty());
}

#[test]
fn halt_propagates_exactly_once() {
    let mut relay = Relay::new();
    assert!(!relay.halted);
    let halt = Message::make_halt_message(MessageDirection::Serverbound);
    // The halt record fires cancellation and is never delivered.
    let a1 = relay.process_frame(halt.clone(), 0);
    assert!(matches!(a1, RelayAction::Halt));
    assert!(relay.halted);
    // Delivering the same halt record twice does not un-halt or deliver.
    let a2 = relay.process_frame(halt, 1);
    assert!(matches!(a2, RelayAction::Halt));
    assert!(relay.halted);
}

#[test]
fn halt_through_the_pipeline() {
    // The halt record survives aggregation and still halts the peer.
    let halt = Message::make_halt_message(MessageDirection::Serverbound);
    let packed = Aggregator::aggregate(&[halt]).expect("Aggregation failed");
    assert_eq!(packed.len(), 1);
    let decoded = Aggregator::disaggregate(&packed[0]).expect("Disaggregation failed");
    assert_eq!(decoded.len(), 1);
    let mut relay = Relay::new();
    let action = relay.process_frame(decoded.into_iter().next().unwrap(), 5);
    assert!(matches!(action, RelayAction::Halt));
    assert!(relay.halted);
}

#[test]
fn ordinary_records_are_delivered() {
    let mut relay = Relay::new();
    let whole = Message::from_bytes(b"hello", MessageDirection::Clientbound);
    match relay.process_frame(whole, 0) {
        RelayAction::Deliver(m) => assert_eq!(m.payload(), b"hello"),
        _ => panic!("a whole record should be delivered"),
    }
    assert!(!relay.halted);
    // Fragments are buffered until the run completes.
    let f1 = fragment(b"ab", MessageDirection::Serverbound, 1, 2);
    let f2 = fragment(b"cd", MessageDirection::Serverbound, 2, 2);
    assert!(matches!(relay.process_frame(f1, 1), RelayAction::Buffered));
    match relay.process_frame(f2, 2) {
        RelayAction::Deliver(m) => assert_eq!(m.payload(), b"abcd"),
        _ => panic!("the completed run should be delivered"),
    }
}

#[test]
fn outgoing_records_fit_the_channel() {
    // A small record is sent as its own text.
    let small = Message::from_bytes(b"ping", MessageDirection::Clientbound);
    let text = small.to_string().to_owned();
    let outgoing = prepare_outgoing(small).unwrap();
    assert_eq!(outgoing, vec![text]);
    // An oversized record is sent as fragment texts, each within budget.
    let big = Message::from_bytes(&vec![7u8; 5_000], MessageDirection::Clientbound);
    let outgoing = prepare_outgoing(big).unwrap();
    assert!(outgoing.len() > 1);
    for t in &outgoing {
        assert!(t.len() <= 1900);
    }
}

#[test]
fn channel_rotation_wraps() {
    assert_eq!(next_channel_index(0, 3), 0);
    assert_eq!(next_channel_index(1, 3), 1);
    assert_eq!(next_channel_index(2, 3), 2);
    assert_eq!(next_channel_index(3, 3), 0);
    // 2^64 - 1 is divisible by 3, so the counter keeps rotating cleanly
    // far beyond any realistic send count.
    assert_eq!(next_channel_index(u128::from(u64::MAX) + 7, 3), 1);
}

#[test]
fn direction_matches_side() {
    let server = Mode::Server {
        address: "localhost".to_owned(),
        port: 25565,
        token: "t".to_owned(),
        guild_id: 1,
    };
    let client = Mode::Client { token: "t".to_owned(), guild_id: 1 };
    assert!(message_direction_matches_side(&server, &MessageDirection::Serverbound));
    assert!(!message_direction_matches_side(&server, &MessageDirection::Clientbound));
    assert!(message_direction_matches_side(&client, &MessageDirection::Clientbound));
    assert!(!message_direction_matches_side(&client, &MessageDirection::Serverbound));
}
