//! The round-trip law tying the send path to the receive path: the frames
//! a payload is fragmented into, replayed in order through the receive
//! transition, reassemble exactly that payload under the sender's topic
//! and device, completing at the last frame and only there.

use crate::codec::{lemma_codec_round_trip, spec_device_of, spec_encode_id, spec_topic_of};
use crate::receiver::{
    spec_decode_err, spec_head_total, spec_process, PartialFrameView, RodosCanReceiveError,
};
use crate::sender::{
    spec_frame_data, spec_head_data, spec_num_frames, spec_tail_data, MAX_PAYLOAD_LENGTH,
};
use vstd::arithmetic::div_mod::lemma_fundamental_div_mod;
use vstd::math::min;
use vstd::prelude::*;

verus! {

/// The reassembly state after a sequence of frame data, all carrying the
/// same extended identifier, has been fed to the receive transition.
pub open spec fn spec_run(
    t: Map<u32, PartialFrameView>,
    cap: int,
    mpl: int,
    id: u32,
    frames: Seq<Seq<u8>>,
) -> Map<u32, PartialFrameView>
    decreases frames.len(),
{
    if frames.len() == 0 {
        t
    } else {
        spec_process(
            spec_run(t, cap, mpl, id, frames.drop_last()),
            cap,
            mpl,
            true,
            id,
            frames.last(),
        ).0
    }
}

/// The data bytes of the frame sequence a payload is fragmented into.
pub open spec fn spec_frame_datas(payload: Seq<u8>) -> Seq<Seq<u8>> {
    Seq::new(spec_num_frames(payload.len() as int) as nat, |k: int| spec_frame_data(payload, k))
}

/// After the head frame and the first `k - 1` tail frames, the sender's
/// source holds exactly the first `min(5 + 7 * (k - 1), len)` payload
/// bytes, expects tail number `k` next, and the step that got there
/// reported completion exactly when those bytes are the whole payload.
proof fn lemma_run_prefix(
    t: Map<u32, PartialFrameView>,
    cap: int,
    mpl: int,
    topic: u16,
    device: u8,
    payload: Seq<u8>,
    k: int,
)
    requires
        payload.len() <= MAX_PAYLOAD_LENGTH,
        payload.len() <= mpl,
        t.contains_key(spec_encode_id(topic, device) as u32) || t.dom().len() < cap,
        1 <= k <= spec_num_frames(payload.len() as int),
    ensures
        ({
            let id = spec_encode_id(topic, device) as u32;
            let frames = spec_frame_datas(payload);
            let l = payload.len() as int;
            let tk = spec_run(t, cap, mpl, id, frames.take(k));
            &&& tk.contains_key(id)
            &&& tk[id] == (PartialFrameView {
                data: payload.take(min(5 + 7 * (k - 1), l)),
                seq_num: k,
                seq_len: l,
            })
            &&& spec_process(
                spec_run(t, cap, mpl, id, frames.take(k - 1)),
                cap,
                mpl,
                true,
                id,
                frames[k - 1],
            ).1 == Ok::<Option<u32>, RodosCanReceiveError>(
                if 5 + 7 * (k - 1) >= l {
                    Some(id)
                } else {
                    None
                },
            )
        }),
    decreases k,
{
    let id = spec_encode_id(topic, device) as u32;
    let frames = spec_frame_datas(payload);
    let l = payload.len() as int;
    assert(0 <= spec_encode_id(topic, device) < 0x2000_0000);
    assert(id as int == spec_encode_id(topic, device));
    if k == 1 {
        // the head frame, processed on the starting state
        assert(frames.take(1).drop_last() =~= frames.take(0));
        assert(frames.take(0) =~= Seq::<Seq<u8>>::empty());
        assert(frames.take(1).last() == spec_head_data(payload));
        let hd = spec_head_data(payload);
        let t0 = spec_run(t, cap, mpl, id, frames.take(0));
        assert(t0 == t);
        assert(hd.len() == 3 + min(5, l));
        assert(hd[0] == 0);
        assert(spec_decode_err(true, hd) is None);
        lemma_fundamental_div_mod(l, 0x100);
        assert(l / 0x100 <= 0xFF) by {
            assert(l <= 0xFFFF);
        }
        assert(hd[1] == (l / 0x100) as u8 && hd[2] == (l % 0x100) as u8);
        assert(spec_head_total(hd) == l);
        let pay = hd.subrange(3, hd.len() as int);
        assert(pay =~= payload.take(min(5, l)));
        assert(pay.take(min(pay.len() as int, l)) =~= pay);
        let e2 = PartialFrameView { data: payload.take(min(5, l)), seq_num: 1, seq_len: l };
        assert(spec_process(t, cap, mpl, true, id, hd).0 == t.insert(id, e2));
        assert(spec_process(t, cap, mpl, true, id, hd).1 == Ok::<
            Option<u32>,
            RodosCanReceiveError,
        >(
            if l <= min(5, l) {
                Some(id)
            } else {
                None
            },
        ));
        assert(l <= min(5, l) <==> 5 + 7 * (k - 1) >= l);
    } else {
        lemma_run_prefix(t, cap, mpl, topic, device, payload, k - 1);
        let tkm1 = spec_run(t, cap, mpl, id, frames.take(k - 1));
        let e = tkm1[id];
        assert(frames.take(k).drop_last() =~= frames.take(k - 1));
        assert(frames.take(k).last() == frames[k - 1]);
        assert(frames[k - 1] == spec_tail_data(payload, k - 1));
        let td = spec_tail_data(payload, k - 1);
        let a = 5 + 7 * (k - 2);
        let b = min(5 + 7 * (k - 1), l);

        // this tail's chunk is not empty, and its sequence byte fits
        assert(l > 5);
        assert(spec_num_frames(l) == 1 + (l + 1) / 7);
        lemma_fundamental_div_mod(l + 1, 7);
        assert(7 * ((l + 1) / 7) <= l + 1);
        assert((l + 1) / 7 <= 0xFF) by {
            assert(l + 1 <= 7 * 0x100 - 1);
        }
        assert(k - 1 <= (l + 1) / 7);
        assert(a < l) by {
            assert(7 * (k - 2) <= 7 * ((l + 1) / 7) - 7);
        }
        assert(1 <= k - 1 <= 0xFF);
        assert(td[0] == (k - 1) as u8);
        assert(td[0] as int == k - 1);
        assert(td.len() == 1 + (b - a));
        assert(spec_decode_err(true, td) is None);

        // the expected sequence number matches, the chunk fits the room
        assert(tkm1.contains_key(id));
        assert(e.seq_num == k - 1 && e.seq_len == l);
        assert(e.data == payload.take(min(a, l)));
        assert(min(a, l) == a);
        let pay = td.subrange(1, td.len() as int);
        assert(pay =~= payload.subrange(a, b));
        let room = e.seq_len - e.data.len();
        assert(room == l - a);
        assert(pay.len() <= room);
        assert(pay.take(min(pay.len() as int, room)) =~= pay);
        let e2 = PartialFrameView {
            data: payload.take(a) + payload.subrange(a, b),
            seq_num: k,
            seq_len: l,
        };
        assert(spec_process(tkm1, cap, mpl, true, id, td).0 == tkm1.insert(id, e2));
        assert(e2.data =~= payload.take(b));
        assert(l <= e2.data.len() <==> 5 + 7 * (k - 1) >= l);
    }
}

/// Round trip: for any topic and device, and any payload the sequence
/// counter can carry and the receiver's packet limit admits, the frame
/// sequence of [`spec_frame_datas`] replayed in order through
/// [`spec_process`] reports nothing for every frame but the last, reports
/// completion at the last, and leaves the sender's source holding exactly
/// the payload — provided the table already tracks that source or has a
/// slot free.
pub proof fn lemma_round_trip(
    t: Map<u32, PartialFrameView>,
    cap: int,
    mpl: int,
    topic: u16,
    device: u8,
    payload: Seq<u8>,
)
    requires
        payload.len() <= MAX_PAYLOAD_LENGTH,
        payload.len() <= mpl,
        t.contains_key(spec_encode_id(topic, device) as u32) || t.dom().len() < cap,
    ensures
        ({
            let id = spec_encode_id(topic, device) as u32;
            let frames = spec_frame_datas(payload);
            let n = frames.len() as int;
            let tn = spec_run(t, cap, mpl, id, frames);
            &&& spec_topic_of(id) == topic
            &&& spec_device_of(id) == device
            &&& tn.contains_key(id)
            &&& tn[id].data == payload
            &&& forall|k: int|
                0 <= k < n ==> spec_process(
                    spec_run(t, cap, mpl, id, frames.take(k)),
                    cap,
                    mpl,
                    true,
                    id,
                    frames[k],
                ).1 == Ok::<Option<u32>, RodosCanReceiveError>(
                    if k == n - 1 {
                        Some(id)
                    } else {
                        None
                    },
                )
        }),
{
    let id = spec_encode_id(topic, device) as u32;
    let frames = spec_frame_datas(payload);
    let n = frames.len() as int;
    let l = payload.len() as int;
    assert(0 <= spec_encode_id(topic, device) < 0x2000_0000);
    lemma_codec_round_trip(topic, device);

    // the last step completes, the earlier ones do not
    lemma_fundamental_div_mod(l + 1, 7);
    assert forall|k: int| 0 <= k < n implies spec_process(
        spec_run(t, cap, mpl, id, frames.take(k)),
        cap,
        mpl,
        true,
        id,
        frames[k],
    ).1 == Ok::<Option<u32>, RodosCanReceiveError>(
        if k == n - 1 {
            Some(id)
        } else {
            None
        },
    ) by {
        lemma_run_prefix(t, cap, mpl, topic, device, payload, k + 1);
        if l > 5 {
            assert(n == 1 + (l + 1) / 7);
            if k == n - 1 {
                assert(7 * (n - 1) >= l - 5);
            } else {
                assert(7 * k <= 7 * ((l + 1) / 7) - 7);
            }
        }
        assert(5 + 7 * k >= l <==> k == n - 1);
    }

    // the final state holds the whole payload
    lemma_run_prefix(t, cap, mpl, topic, device, payload, n);
    assert(frames.take(n) =~= frames);
    if l > 5 {
        assert(7 * (n - 1) >= l - 5);
    }
    assert(min(5 + 7 * (n - 1), l) == l);
    assert(payload.take(l) =~= payload);
}

} // verus!
