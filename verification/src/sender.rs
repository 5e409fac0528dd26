//! Fragmentation of an outbound payload into bus frames (the send path).
//!
//! A payload travels as one head frame — marker byte `0x00`, the total
//! length as two big-endian bytes, then up to five payload bytes — followed
//! by tail frames of up to seven payload bytes each, numbered from 1 by a
//! single leading sequence byte. The one-byte sequence counter bounds a
//! payload to `5 + 255 * 7` bytes; a longer payload is refused rather than
//! letting the counter wrap, which would make reassembly ambiguous.

use crate::codec::{encode_id, spec_encode_id};
use crate::frame::BusFrame;
use vstd::arithmetic::div_mod::lemma_fundamental_div_mod_converse;
use vstd::math::min;
use vstd::prelude::*;

verus! {

/// Longest payload the one-byte tail sequence counter can carry: the head
/// frame's five bytes plus 255 tail frames of seven bytes each.
pub const MAX_PAYLOAD_LENGTH: usize = 5 + 255 * 7;

/// Errors of the send path.
#[derive(Debug, Clone, Copy, PartialEq, Eq, Structural)]
pub enum RodosCanSendError {
    /// The payload needs more tail frames than the one-byte sequence
    /// counter can number: its length exceeds [`MAX_PAYLOAD_LENGTH`].
    ToMuchData,
}

/// How many frames a payload of the given length occupies: one head frame,
/// then one tail frame per started chunk of seven remaining bytes.
pub open spec fn spec_num_frames(len: int) -> int {
    if len <= 5 {
        1
    } else {
        1 + (len - 5 + 6) / 7
    }
}

/// The data bytes of the head frame: marker `0`, the payload length in
/// big-endian, then the first up-to-five payload bytes.
pub open spec fn spec_head_data(payload: Seq<u8>) -> Seq<u8> {
    let len = payload.len() as int;
    seq![0u8, (len / 0x100) as u8, (len % 0x100) as u8] + payload.take(min(5, len))
}

/// The data bytes of the `k`-th tail frame (`k >= 1`): the sequence byte
/// `k`, then the payload's `k`-th chunk of up to seven bytes.
pub open spec fn spec_tail_data(payload: Seq<u8>, k: int) -> Seq<u8> {
    let len = payload.len() as int;
    seq![k as u8] + payload.subrange(5 + 7 * (k - 1), min(5 + 7 * k, len))
}

/// The data bytes of the `k`-th frame a payload is split into.
pub open spec fn spec_frame_data(payload: Seq<u8>, k: int) -> Seq<u8> {
    if k == 0 {
        spec_head_data(payload)
    } else {
        spec_tail_data(payload, k)
    }
}

/// The frame sequence is exactly the fragmentation of `payload` under the
/// extended identifier `id`.
pub open spec fn spec_frames_match(frames: Seq<BusFrame>, id: int, payload: Seq<u8>) -> bool {
    &&& frames.len() == spec_num_frames(payload.len() as int)
    &&& forall|k: int|
        0 <= k < frames.len() ==> {
            &&& (#[trigger] frames[k]).extended
            &&& frames[k].id as int == id
            &&& frames[k].wf()
            &&& frames[k].data@ == spec_frame_data(payload, k)
        }
}

/// Relies on `embedded_can::ExtendedId::new`, which accepts exactly the
/// identifiers that fit 29 bits, and on `ExtendedId::as_raw`, which hands
/// back the value the identifier was made from.
#[verifier::external_body]
fn checked_extended_id(raw: u32) -> (r: Option<u32>)
    ensures
        r == (if raw <= 0x1FFF_FFFF {
            Some(raw)
        } else {
            None::<u32>
        }),
{
    embedded_can::ExtendedId::new(raw).map(|id| id.as_raw())
}

/// The send side of the protocol for one endpoint: it fragments payloads
/// under this endpoint's device id. It holds no state between calls.
pub struct RodosCanSender {
    /// The device id stamped into every identifier this sender produces.
    pub device_id: u8,
}

impl RodosCanSender {
    /// Make a sender for one device id.
    pub fn new(device_id: u8) -> (r: Self)
        ensures
            r.device_id == device_id,
    {
        RodosCanSender { device_id }
    }

    /// The extended identifier this sender stamps on a topic's frames.
    pub fn encode_id(&self, topic: u16) -> (r: u32)
        ensures
            r as int == spec_encode_id(topic, self.device_id),
    {
        encode_id(topic, self.device_id)
    }

    /// Split a payload into the ordered frame sequence that carries it:
    /// a head frame, then numbered tail frames. Fails exactly when the
    /// payload is longer than the sequence counter allows; it is never
    /// silently truncated.
    pub fn fragment(&self, topic: u16, data: &Vec<u8>) -> (r: Result<
        Vec<BusFrame>,
        RodosCanSendError,
    >)
        ensures
            match r {
                Ok(frames) => data@.len() <= MAX_PAYLOAD_LENGTH && spec_frames_match(
                    frames@,
                    spec_encode_id(topic, self.device_id),
                    data@,
                ),
                Err(e) => data@.len() > MAX_PAYLOAD_LENGTH && e == RodosCanSendError::ToMuchData,
            },
    {
        let len = data.len();
        if len > MAX_PAYLOAD_LENGTH {
            return Err(RodosCanSendError::ToMuchData);
        }
        let raw = self.encode_id(topic);
        let id = match checked_extended_id(raw) {
            Some(v) => v,
            None => {
                proof {
                    assert(false);
                }
                raw
            },
        };

        // head frame: marker, big-endian length, first up-to-five bytes
        let len_u16 = len as u16;
        let mut head: Vec<u8> = Vec::new();
        head.push(0u8);
        head.push((len_u16 / 0x100) as u8);
        head.push((len_u16 % 0x100) as u8);
        let head_take: usize = if len < 5 {
            len
        } else {
            5
        };
        let mut j: usize = 0;
        while j < head_take
            invariant
                j <= head_take,
                head_take == min(5, data@.len() as int),
                head@ == seq![
                    0u8,
                    (data@.len() as int / 0x100) as u8,
                    (data@.len() as int % 0x100) as u8,
                ] + data@.take(j as int),
            decreases head_take - j,
        {
            let b = data[j];
            head.push(b);
            proof {
                assert(data@.take(j + 1) =~= data@.take(j as int).push(b));
                assert(head@ =~= seq![
                    0u8,
                    (data@.len() as int / 0x100) as u8,
                    (data@.len() as int % 0x100) as u8,
                ] + data@.take(j + 1));
            }
            j += 1;
        }
        let mut frames: Vec<BusFrame> = Vec::new();
        frames.push(BusFrame::new(true, id, head));
        proof {
            assert(frames@[0].data@ == spec_head_data(data@));
        }

        // tail frames: sequence byte, then up to seven payload bytes
        let mut k: usize = 1;
        let mut pos: usize = head_take;
        while pos < len
            invariant
                len == data@.len(),
                len <= MAX_PAYLOAD_LENGTH,
                1 <= k <= 256,
                pos as int == min(5 + 7 * (k - 1), len as int),
                pos <= len,
                k >= 2 ==> 5 + 7 * (k - 2) < len as int,
                frames@.len() == k,
                raw < 0x2000_0000,
                id == raw,
                raw as int == spec_encode_id(topic, self.device_id),
                forall|m: int|
                    0 <= m < k ==> {
                        &&& (#[trigger] frames@[m]).extended
                        &&& frames@[m].id == raw
                        &&& frames@[m].wf()
                        &&& frames@[m].data@ == spec_frame_data(data@, m)
                    },
            decreases len - pos,
        {
            let mut tail: Vec<u8> = Vec::new();
            tail.push(k as u8);
            let end: usize = if pos + 7 < len {
                pos + 7
            } else {
                len
            };
            let mut j2: usize = pos;
            while j2 < end
                invariant
                    pos <= j2 <= end <= len,
                    len == data@.len(),
                    k <= 255,
                    tail@ == seq![k as u8] + data@.subrange(pos as int, j2 as int),
                decreases end - j2,
            {
                let b = data[j2];
                tail.push(b);
                proof {
                    assert(data@.subrange(pos as int, j2 + 1) =~= data@.subrange(
                        pos as int,
                        j2 as int,
                    ).push(b));
                    assert(tail@ =~= seq![k as u8] + data@.subrange(pos as int, j2 + 1));
                }
                j2 += 1;
            }
            proof {
                assert(end as int == min(5 + 7 * (k as int), len as int));
                assert(tail@ == spec_tail_data(data@, k as int));
            }
            frames.push(BusFrame::new(true, id, tail));
            pos = end;
            k += 1;
        }
        proof {
            assert(pos == len);
            if len > 5 {
                let x = len as int - 5;
                let m = k as int - 1;
                assert(7 * (m - 1) < x <= 7 * m);
                lemma_fundamental_div_mod_converse(x + 6, 7, m, x + 6 - 7 * m);
                assert(spec_num_frames(len as int) == k as int);
            }
            assert(frames@.len() == spec_num_frames(data@.len() as int));
        }
        Ok(frames)
    }
}

} // verus!
