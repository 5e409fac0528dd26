//! Tests of fragmentation, reassembly, and their round trip.

use uart_can_relay::codec::encode_id;
use uart_can_relay::frame::BusFrame;
use uart_can_relay::receiver::{
    RodosCanDecodeError, RodosCanReceiveError, RodosCanReceiver,
};
use uart_can_relay::sender::{RodosCanSendError, RodosCanSender, MAX_PAYLOAD_LENGTH};

fn head_frame(topic: u16, device: u8, total: u16, bytes: &[u8]) -> BusFrame {
    let mut data = vec![0u8, (total >> 8) as u8, total as u8];
    data.extend_from_slice(bytes);
    BusFrame::new(true, encode_id(topic, device), data)
}

fn tail_frame(topic: u16, device: u8, seq: u8, bytes: &[u8]) -> BusFrame {
    let mut data = vec![seq];
    data.extend_from_slice(bytes);
    BusFrame::new(true, encode_id(topic, device), data)
}

#[test]
fn fragment_short_payload_single_frame() {
    let sender = RodosCanSender::new(7);
    let payload = vec![1u8, 2, 3];
    let frames = sender.fragment(5, &payload).unwrap();
    assert_eq!(frames.len(), 1);
    assert!(frames[0].extended);
    assert_eq!(frames[0].id, encode_id(5, 7));
    assert_eq!(frames[0].data, vec![0u8, 0, 3, 1, 2, 3]);
}

#[test]
fn fragment_chunks_tails_of_seven() {
    let sender = RodosCanSender::new(1);
    let payload: Vec<u8> = (0u8..20).collect();
    let frames = sender.fragment(2, &payload).unwrap();
    assert_eq!(frames.len(), 4);
    assert_eq!(frames[0].data, vec![0u8, 0, 20, 0, 1, 2, 3, 4]);
    assert_eq!(frames[1].data, vec![1u8, 5, 6, 7, 8, 9, 10, 11]);
    assert_eq!(frames[2].data, vec![2u8, 12, 13, 14, 15, 16, 17, 18]);
    assert_eq!(frames[3].data, vec![3u8, 19]);
    for frame in &frames {
        assert_eq!(frame.id, encode_id(2, 1));
        assert!(frame.data.len() <= 8);
    }
}

#[test]
fn fragment_empty_payload() {
    let sender = RodosCanSender::new(0);
    let frames = sender.fragment(0, &Vec::new()).unwrap();
    assert_eq!(frames.len(), 1);
    assert_eq!(frames[0].data, vec![0u8, 0, 0]);
}

#[test]
fn fragment_refuses_overlong_payload() {
    let sender = RodosCanSender::new(0);
    let payload = vec![0u8; MAX_PAYLOAD_LENGTH + 1];
    assert_eq!(sender.fragment(1, &payload), Err(RodosCanSendError::ToMuchData));
}

#[test]
fn fragment_longest_payload() {
    let sender = RodosCanSender::new(9);
    let payload = vec![0xAAu8; MAX_PAYLOAD_LENGTH];
    let frames = sender.fragment(1, &payload).unwrap();
    assert_eq!(frames.len(), 256);
    assert_eq!(frames[255].data[0], 255);
    assert_eq!(frames[255].data.len(), 8);
}

#[test]
fn round_trip_multi_frame() {
    let sender = RodosCanSender::new(4);
    let mut receiver = RodosCanReceiver::new(4, 1024);
    let payload: Vec<u8> = (0u8..=99).collect();
    let frames = sender.fragment(0x0203, &payload).unwrap();
    let last = frames.len() - 1;
    for (i, frame) in frames.iter().enumerate() {
        let step = receiver.handle_frame(frame).unwrap();
        if i < last {
            assert!(step.is_none());
        } else {
            let msg = step.unwrap();
            assert_eq!(msg.topic(), 0x0203);
            assert_eq!(msg.device(), 4);
            assert_eq!(msg.data(), &payload);
        }
    }
}

#[test]
fn round_trip_empty_payload() {
    let sender = RodosCanSender::new(8);
    let mut receiver = RodosCanReceiver::new(1, 16);
    let frames = sender.fragment(77, &Vec::new()).unwrap();
    assert_eq!(frames.len(), 1);
    let msg = receiver.handle_frame(&frames[0]).unwrap().unwrap();
    assert_eq!(msg.topic(), 77);
    assert_eq!(msg.device(), 8);
    assert!(msg.data().is_empty());
}

#[test]
fn round_trip_longest_payload() {
    let sender = RodosCanSender::new(2);
    let mut receiver = RodosCanReceiver::new(1, MAX_PAYLOAD_LENGTH);
    let payload: Vec<u8> = (0..MAX_PAYLOAD_LENGTH).map(|i| (i % 251) as u8).collect();
    let frames = sender.fragment(11, &payload).unwrap();
    let last = frames.len() - 1;
    for (i, frame) in frames.iter().enumerate() {
        let step = receiver.handle_frame(frame).unwrap();
        if i < last {
            assert!(step.is_none());
        } else {
            assert_eq!(step.unwrap().data(), &payload);
        }
    }
}

#[test]
fn head_overwrite_discards_partial_message() {
    let mut receiver = RodosCanReceiver::new(2, 64);
    // a head that leaves the message incomplete
    let first = head_frame(3, 1, 10, &[1, 2, 3, 4, 5]);
    assert!(receiver.handle_frame(&first).unwrap().is_none());
    // a second head for the same address starts over
    let second = head_frame(3, 1, 3, &[9, 9, 9]);
    let msg = receiver.handle_frame(&second).unwrap().unwrap();
    assert_eq!(msg.data(), &vec![9u8, 9, 9]);
}

#[test]
fn sequence_gap_drops_frame() {
    let mut receiver = RodosCanReceiver::new(2, 64);
    let head = head_frame(3, 1, 12, &[1, 2, 3, 4, 5]);
    assert!(receiver.handle_frame(&head).unwrap().is_none());
    // tail 2 arrives while tail 1 is expected
    let tail = tail_frame(3, 1, 2, &[6, 7, 8, 9, 10, 11, 12]);
    assert_eq!(receiver.handle_frame(&tail), Err(RodosCanReceiveError::FrameDropped));
    // the matching tail still completes the message afterwards
    let tail1 = tail_frame(3, 1, 1, &[6, 7, 8, 9, 10, 11, 12]);
    let msg = receiver.handle_frame(&tail1).unwrap().unwrap();
    assert_eq!(msg.data(), &vec![1u8, 2, 3, 4, 5, 6, 7, 8, 9, 10, 11, 12]);
}

#[test]
fn full_table_refuses_new_source_only() {
    let mut receiver = RodosCanReceiver::new(1, 64);
    // source A takes the only slot
    let head_a = head_frame(1, 1, 9, &[1, 2, 3, 4, 5]);
    assert!(receiver.handle_frame(&head_a).unwrap().is_none());
    // source B finds the table full
    let head_b = head_frame(1, 2, 3, &[7, 7, 7]);
    assert_eq!(
        receiver.handle_frame(&head_b),
        Err(RodosCanReceiveError::SourceBufferFull)
    );
    // source A is untouched and still completes
    let tail_a = tail_frame(1, 1, 1, &[6, 7, 8, 9]);
    let msg = receiver.handle_frame(&tail_a).unwrap().unwrap();
    assert_eq!(msg.topic(), 1);
    assert_eq!(msg.device(), 1);
    assert_eq!(msg.data(), &vec![1u8, 2, 3, 4, 5, 6, 7, 8, 9]);
}

#[test]
fn non_extended_frame_is_foreign() {
    let mut receiver = RodosCanReceiver::new(1, 64);
    let frame = BusFrame::new(false, 0x123, vec![0, 0, 1, 5]);
    assert_eq!(
        receiver.handle_frame(&frame),
        Err(RodosCanReceiveError::CouldNotDecode(RodosCanDecodeError::WrongIDType))
    );
}

#[test]
fn too_short_frames_have_no_data() {
    let mut receiver = RodosCanReceiver::new(1, 64);
    // an empty frame and a lone sequence byte carry nothing
    for data in [vec![], vec![1u8]] {
        let frame = BusFrame::new(true, encode_id(1, 1), data);
        assert_eq!(
            receiver.handle_frame(&frame),
            Err(RodosCanReceiveError::CouldNotDecode(RodosCanDecodeError::NoData))
        );
    }
    // a head frame missing one of its two length bytes
    let frame = BusFrame::new(true, encode_id(1, 1), vec![0u8, 0]);
    assert_eq!(
        receiver.handle_frame(&frame),
        Err(RodosCanReceiveError::CouldNotDecode(RodosCanDecodeError::NoData))
    );
}

#[test]
fn overlong_declared_length_is_refused() {
    let mut receiver = RodosCanReceiver::new(1, 10);
    let head = head_frame(1, 1, 11, &[1, 2, 3]);
    assert_eq!(
        receiver.handle_frame(&head),
        Err(RodosCanReceiveError::MessageBufferFull)
    );
    // the limit itself is still accepted
    let head_ok = head_frame(1, 1, 10, &[1, 2, 3, 4, 5]);
    assert!(receiver.handle_frame(&head_ok).unwrap().is_none());
}

#[test]
fn refused_head_consumes_no_slot() {
    // a new source's overlong head is refused without creating an entry:
    // the single slot stays free for the next source
    let mut receiver = RodosCanReceiver::new(1, 10);
    let overlong = head_frame(1, 1, 11, &[1, 2, 3]);
    assert_eq!(
        receiver.handle_frame(&overlong),
        Err(RodosCanReceiveError::MessageBufferFull)
    );
    let head_b = head_frame(1, 2, 3, &[7, 7, 7]);
    let msg = receiver.handle_frame(&head_b).unwrap().unwrap();
    assert_eq!(msg.device(), 2);
    assert_eq!(msg.data(), &vec![7u8, 7, 7]);
}

#[test]
fn refused_head_leaves_entry_untouched() {
    // an overlong head for a known source changes nothing: the partial
    // message goes on collecting as if the head had never arrived
    let mut receiver = RodosCanReceiver::new(1, 16);
    let head = head_frame(1, 1, 9, &[1, 2, 3, 4, 5]);
    assert!(receiver.handle_frame(&head).unwrap().is_none());
    let overlong = head_frame(1, 1, 17, &[9, 9]);
    assert_eq!(
        receiver.handle_frame(&overlong),
        Err(RodosCanReceiveError::MessageBufferFull)
    );
    let tail = tail_frame(1, 1, 1, &[6, 7, 8, 9]);
    let msg = receiver.handle_frame(&tail).unwrap().unwrap();
    assert_eq!(msg.data(), &vec![1u8, 2, 3, 4, 5, 6, 7, 8, 9]);
}

#[test]
fn tail_without_head_first_in_sequence() {
    // a tail numbered 1 lands on an auto-created empty entry, whose
    // declared length 0 is already met: an empty message is reported
    let mut receiver = RodosCanReceiver::new(1, 64);
    let tail = tail_frame(1, 1, 1, &[5, 5]);
    let msg = receiver.handle_frame(&tail).unwrap().unwrap();
    assert!(msg.data().is_empty());
}

#[test]
fn tail_without_head_out_of_sequence() {
    // any other tail number mismatches the fresh entry's expected 1
    let mut receiver = RodosCanReceiver::new(1, 64);
    let tail = tail_frame(1, 1, 2, &[5, 5]);
    assert_eq!(receiver.handle_frame(&tail), Err(RodosCanReceiveError::FrameDropped));
}
