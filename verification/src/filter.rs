//! Construction of the hardware acceptance-filter ranges.
//!
//! The transport has exactly eight extended-filter slots. The policy is
//! default reject-all: for each of the first eight chosen topics one slot
//! holds the inclusive identifier range covering that topic across all
//! 256 device values, and every remaining slot is left inactive, so it
//! never matches.

use crate::codec::{encode_id, spec_device_of, spec_encode_id, spec_topic_of};
use vstd::arithmetic::div_mod::lemma_fundamental_div_mod_converse;
use vstd::prelude::*;

verus! {

/// Number of extended-filter slots the hardware offers.
pub const FILTER_SLOTS: usize = 8;

/// One acceptance-filter slot: an inclusive identifier range, or an
/// inactive slot that never matches. An active slot stands for a range
/// filter that stores its matches into the receive queue; installing the
/// slots into the hardware, under its reject-all default, is the
/// transport driver's step at the edge.
pub struct FilterRange {
    /// Whether this slot matches anything at all.
    pub active: bool,
    /// First identifier of the accepted range.
    pub from: u32,
    /// Last identifier of the accepted range.
    pub to: u32,
}

/// Build the eight filter slots for a list of topics. The first eight
/// topics each get an active range `[encode(topic, 0), encode(topic, 255)]`;
/// further topics are silently ignored; slots without a topic are inactive.
pub fn configure_filters(topics: &Vec<u16>) -> (r: Vec<FilterRange>)
    ensures
        r@.len() == FILTER_SLOTS,
        forall|i: int|
            0 <= i < FILTER_SLOTS && i < topics@.len() ==> {
                &&& (#[trigger] r@[i]).active
                &&& r@[i].from as int == spec_encode_id(topics@[i], 0)
                &&& r@[i].to as int == spec_encode_id(topics@[i], 0xFF)
            },
        forall|i: int|
            topics@.len() <= i < FILTER_SLOTS ==> !(#[trigger] r@[i]).active,
{
    let mut slots: Vec<FilterRange> = Vec::new();
    let mut i: usize = 0;
    while i < FILTER_SLOTS
        invariant
            i <= FILTER_SLOTS,
            slots@.len() == i,
            forall|j: int|
                0 <= j < i && j < topics@.len() ==> {
                    &&& (#[trigger] slots@[j]).active
                    &&& slots@[j].from as int == spec_encode_id(topics@[j], 0)
                    &&& slots@[j].to as int == spec_encode_id(topics@[j], 0xFF)
                },
            forall|j: int| topics@.len() <= j < i ==> !(#[trigger] slots@[j]).active,
        decreases FILTER_SLOTS - i,
    {
        if i < topics.len() {
            let topic = topics[i];
            slots.push(
                FilterRange { active: true, from: encode_id(topic, 0), to: encode_id(topic, 0xFF) },
            );
        } else {
            slots.push(FilterRange { active: false, from: 0, to: 0 });
        }
        i += 1;
    }
    slots
}

/// An active slot accepts exactly its own topic: an encoded identifier
/// falls inside the slot's range if and only if its topic equals the
/// slot's topic, whatever the device.
pub proof fn lemma_filter_range_matches_topic(filter_topic: u16, topic: u16, device: u8)
    ensures
        (spec_encode_id(filter_topic, 0) <= spec_encode_id(topic, device)
            <= spec_encode_id(filter_topic, 0xFF)) <==> topic == filter_topic,
{
    if topic < filter_topic {
        assert((topic as int) * 0x100 + (device as int) < (filter_topic as int) * 0x100);
    }
    if topic > filter_topic {
        assert((filter_topic as int) * 0x100 + 0xFF < (topic as int) * 0x100);
    }
}

/// Every address an active slot lets through decodes to the slot's own
/// topic: the filters leave nothing for the receive path to re-check.
pub proof fn lemma_filter_accepted_address(filter_topic: u16, address: u32)
    requires
        spec_encode_id(filter_topic, 0) <= address <= spec_encode_id(filter_topic, 0xFF),
    ensures
        spec_topic_of(address) == filter_topic,
        address as int == spec_encode_id(filter_topic, spec_device_of(address)),
{
    let device = address as int - spec_encode_id(filter_topic, 0);
    assert(0 <= device <= 0xFF);
    assert(address as int == (0x1C_0000 + filter_topic as int) * 0x100 + device);
    lemma_fundamental_div_mod_converse(
        address as int,
        0x100,
        0x1C_0000 + filter_topic as int,
        device,
    );
    assert(0x1C_0000 + filter_topic as int == 0x1_0000 * 0x1C + filter_topic as int);
    lemma_fundamental_div_mod_converse(
        0x1C_0000 + filter_topic as int,
        0x1_0000,
        0x1C,
        filter_topic as int,
    );
}

} // verus!
