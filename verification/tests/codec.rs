//! Tests of the identifier codec and the filter construction.

use uart_can_relay::codec::{decode_id, encode_id};
use uart_can_relay::filter::configure_filters;

#[test]
fn encode_id_exact_value() {
    // marker 0x1C in the top bits, topic in the middle, device low
    assert_eq!(encode_id(0x0102, 0x03), 0x1C01_0203);
    assert_eq!(encode_id(0, 0), 0x1C00_0000);
    assert_eq!(encode_id(0xFFFF, 0xFF), 0x1CFF_FFFF);
}

#[test]
fn decode_id_exact_value() {
    assert_eq!(decode_id(0x1C01_0203), (0x0102, 0x03));
    assert_eq!(decode_id(0x1C00_0000), (0, 0));
}

#[test]
fn codec_round_trip_samples() {
    for &(topic, device) in
        &[(0u16, 0u8), (1, 255), (0xABCD, 0x12), (0xFFFF, 0xFF), (500, 42)]
    {
        assert_eq!(decode_id(encode_id(topic, device)), (topic, device));
    }
}

#[test]
fn decode_id_ignores_marker() {
    // decoding performs no plausibility check on the marker bits
    assert_eq!(decode_id(0x0001_0203), (0x0102, 0x03));
}

#[test]
fn filters_eight_topics_all_active() {
    let topics: Vec<u16> = vec![1, 2, 3, 4, 5, 6, 7, 8];
    let slots = configure_filters(&topics);
    assert_eq!(slots.len(), 8);
    for (i, slot) in slots.iter().enumerate() {
        assert!(slot.active);
        assert_eq!(slot.from, encode_id(topics[i], 0));
        assert_eq!(slot.to, encode_id(topics[i], 255));
    }
}

#[test]
fn filters_ninth_topic_ignored() {
    let topics: Vec<u16> = vec![10, 20, 30, 40, 50, 60, 70, 80, 90];
    let slots = configure_filters(&topics);
    assert_eq!(slots.len(), 8);
    assert_eq!(slots.iter().filter(|s| s.active).count(), 8);
    assert_eq!(slots[7].from, encode_id(80, 0));
    assert_eq!(slots[7].to, encode_id(80, 255));
}

#[test]
fn filters_unused_slots_inactive() {
    let topics: Vec<u16> = vec![7, 9];
    let slots = configure_filters(&topics);
    assert_eq!(slots.len(), 8);
    assert!(slots[0].active && slots[1].active);
    for slot in &slots[2..] {
        assert!(!slot.active);
    }
}

#[test]
fn filter_range_covers_own_topic_only() {
    let topics: Vec<u16> = vec![5];
    let slots = configure_filters(&topics);
    for device in [0u8, 1, 42, 255] {
        let id = encode_id(5, device);
        assert!(slots[0].from <= id && id <= slots[0].to);
    }
    for other in [0u16, 4, 6, 0xFFFF] {
        for device in [0u8, 255] {
            let id = encode_id(other, device);
            assert!(!(slots[0].from <= id && id <= slots[0].to));
        }
    }
}
