//! Packing and unpacking of the 29-bit extended bus identifier.
//!
//! An identifier is `marker · topic · device`: a fixed 5-bit protocol
//! marker in the top bits, a 16-bit topic, and an 8-bit device id in the
//! low byte. Encoding always succeeds; decoding never validates the
//! marker, because the acceptance filters (see [`crate::filter`]) are
//! relied upon to exclude foreign traffic.

use vstd::arithmetic::div_mod::lemma_fundamental_div_mod_converse;
use vstd::prelude::*;

verus! {

/// Fixed marker placed in the top 5 bits of every identifier this
/// protocol produces, distinguishing its traffic from other bus users.
pub const RODOS_CAN_ID: u8 = 0x1C;

/// The identifier that `encode_id` produces for a topic and a device,
/// as a mathematical integer.
pub open spec fn spec_encode_id(topic: u16, device: u8) -> int {
    (RODOS_CAN_ID as int) * 0x100_0000 + (topic as int) * 0x100 + (device as int)
}

/// The topic field of an identifier: its middle 16 bits.
pub open spec fn spec_topic_of(id: u32) -> u16 {
    (((id as int) / 0x100) % 0x1_0000) as u16
}

/// The device field of an identifier: its low byte.
pub open spec fn spec_device_of(id: u32) -> u8 {
    ((id as int) % 0x100) as u8
}

/// Pack a topic and a device, together with the protocol marker, into an
/// extended bus identifier. Always succeeds and always fits 29 bits.
pub fn encode_id(topic: u16, device: u8) -> (r: u32)
    ensures
        r as int == spec_encode_id(topic, device),
        r < 0x2000_0000,
{
    (RODOS_CAN_ID as u32) * 0x100_0000 + (topic as u32) * 0x100 + (device as u32)
}

/// Unpack an extended bus identifier into its topic and device fields.
/// Succeeds for any identifier; the marker bits are ignored.
pub fn decode_id(id: u32) -> (r: (u16, u8))
    ensures
        r.0 == spec_topic_of(id),
        r.1 == spec_device_of(id),
{
    let topic: u16 = ((id / 0x100) % 0x1_0000) as u16;
    let device: u8 = (id % 0x100) as u8;
    (topic, device)
}

/// Unpacking undoes packing: for every representable topic and device,
/// the encoded identifier decodes to exactly that topic and device.
pub proof fn lemma_codec_round_trip(topic: u16, device: u8)
    ensures
        spec_topic_of(spec_encode_id(topic, device) as u32) == topic,
        spec_device_of(spec_encode_id(topic, device) as u32) == device,
{
    let e = spec_encode_id(topic, device);
    assert(e == (0x1C_0000 + topic as int) * 0x100 + device as int);
    lemma_fundamental_div_mod_converse(e, 0x100, 0x1C_0000 + topic as int, device as int);
    assert(0x1C_0000 + topic as int == 0x1_0000 * 0x1C + topic as int);
    lemma_fundamental_div_mod_converse(
        0x1C_0000 + topic as int,
        0x1_0000,
        0x1C,
        topic as int,
    );
}

} // verus!
