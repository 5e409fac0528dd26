//! Stateful reassembly of inbound frames into messages (the receive path).
//!
//! Frames are classified by their leading data byte: `0` marks a head
//! frame, anything else is a tail frame whose leading byte is its sequence
//! number (tails are numbered from 1, so the classes cannot collide). Per
//! source address a partial message collects bytes in a fixed-capacity
//! table until the declared total length is reached.
//!
//! A tail arriving before any head for its address meets an auto-created
//! empty entry, whose declared length 0 is already met: tail number 1
//! completes an empty message, any other number fails as a dropped frame.
//! A failed sequence match never resets the partial message: a later tail
//! with the expected number still continues it.

use crate::codec::{decode_id, spec_device_of, spec_topic_of};
use crate::frame::BusFrame;
use vstd::math::min;
use vstd::prelude::*;

verus! {

/// A reassembled protocol message: the topic and device its frames were
/// addressed with, and the collected payload bytes.
#[derive(Debug, Clone, PartialEq, Eq)]
pub struct RodosCanFrame {
    /// Logical channel the message belongs to.
    pub topic: u16,
    /// Identifier of the sending endpoint.
    pub device: u8,
    /// The reassembled payload.
    pub data: Vec<u8>,
}

impl RodosCanFrame {
    /// The message's topic.
    pub fn topic(&self) -> (r: u16)
        ensures
            r == self.topic,
    {
        self.topic
    }

    /// The message's device id.
    pub fn device(&self) -> (r: u8)
        ensures
            r == self.device,
    {
        self.device
    }

    /// The message's payload bytes.
    pub fn data(&self) -> (r: &Vec<u8>)
        ensures
            r@ == self.data@,
    {
        &self.data
    }
}

/// Why a single frame could not be read as a protocol frame.
#[derive(Debug, Clone, Copy, PartialEq, Eq, Structural)]
pub enum RodosCanDecodeError {
    /// The frame does not carry a 29-bit extended identifier.
    WrongIDType,
    /// The frame is too short to hold the protocol's metadata.
    NoData,
}

/// Why processing an inbound frame failed. None of these touch the state
/// kept for other source addresses: the caller may simply go on with the
/// next frame.
#[derive(Debug, Clone, Copy, PartialEq, Eq, Structural)]
pub enum RodosCanReceiveError {
    /// The frame could not be decoded as a protocol frame.
    CouldNotDecode(RodosCanDecodeError),
    /// A tail frame's sequence number is not the expected one: a frame
    /// was lost or reordered. The partial message is left as it was.
    FrameDropped,
    /// A frame from a new source arrived while the table is full. The
    /// frame is dropped; existing entries are untouched.
    SourceBufferFull,
    /// A head frame declares a total length beyond the configured
    /// maximum packet length. The head is dropped; no entry is created
    /// or changed.
    MessageBufferFull,
}

/// One decoded protocol frame: a head opening a new message, or a
/// numbered tail continuing one.
pub enum RodosCanFramePart {
    /// First frame of a message: its declared total length and its
    /// inline payload bytes.
    Head { data: Vec<u8>, seq_len: usize },
    /// A continuation frame: its sequence number and its payload bytes.
    Tail { data: Vec<u8>, seq_num: usize },
}

/// The decode error for a frame's shape, if any: non-extended identifiers
/// are foreign, a frame needs at least a sequence byte and one byte after
/// it, and a head frame needs its two length bytes.
pub open spec fn spec_decode_err(extended: bool, d: Seq<u8>) -> Option<RodosCanDecodeError> {
    if !extended {
        Some(RodosCanDecodeError::WrongIDType)
    } else if d.len() <= 1 {
        Some(RodosCanDecodeError::NoData)
    } else if d[0] == 0 && d.len() < 3 {
        Some(RodosCanDecodeError::NoData)
    } else {
        None
    }
}

/// The total length a head frame declares, read big-endian from the two
/// bytes after the marker.
pub open spec fn spec_head_total(d: Seq<u8>) -> int {
    (d[1] as int) * 0x100 + (d[2] as int)
}

/// Read a raw bus frame as a protocol frame part plus its source
/// identifier. Pure: no reassembly state is involved.
pub fn decode(frame: &BusFrame) -> (r: Result<(u32, RodosCanFramePart), RodosCanDecodeError>)
    requires
        frame.wf(),
    ensures
        ({
            let d = frame.data@;
            match spec_decode_err(frame.extended, d) {
                Some(e) => r == Err::<(u32, RodosCanFramePart), _>(e),
                None => match r {
                    Ok((id, part)) => id == frame.id && (if d[0] == 0 {
                        match part {
                            RodosCanFramePart::Head { data, seq_len } => {
                                &&& seq_len as int == spec_head_total(d)
                                &&& data@ == d.subrange(3, d.len() as int)
                            },
                            _ => false,
                        }
                    } else {
                        match part {
                            RodosCanFramePart::Tail { data, seq_num } => {
                                &&& seq_num == d[0] as int
                                &&& data@ == d.subrange(1, d.len() as int)
                            },
                            _ => false,
                        }
                    }),
                    Err(_) => false,
                },
            }
        }),
{
    if !frame.extended {
        return Err(RodosCanDecodeError::WrongIDType);
    }
    let n = frame.data.len();
    if n <= 1 {
        return Err(RodosCanDecodeError::NoData);
    }
    let first = frame.data[0];
    if first == 0 {
        // head frame part
        if n < 3 {
            return Err(RodosCanDecodeError::NoData);
        }
        let seq_len: usize = (frame.data[1] as usize) * 0x100 + (frame.data[2] as usize);
        let mut data: Vec<u8> = Vec::new();
        let mut j: usize = 3;
        while j < n
            invariant
                3 <= j <= n,
                n == frame.data@.len(),
                data@ == frame.data@.subrange(3, j as int),
            decreases n - j,
        {
            let b = frame.data[j];
            data.push(b);
            proof {
                assert(frame.data@.subrange(3, j + 1) =~= frame.data@.subrange(3, j as int).push(
                    b,
                ));
            }
            j += 1;
        }
        Ok((frame.id, RodosCanFramePart::Head { data, seq_len }))
    } else {
        let seq_num: usize = first as usize;
        let mut data: Vec<u8> = Vec::new();
        let mut j: usize = 1;
        while j < n
            invariant
                1 <= j <= n,
                n == frame.data@.len(),
                data@ == frame.data@.subrange(1, j as int),
            decreases n - j,
        {
            let b = frame.data[j];
            data.push(b);
            proof {
                assert(frame.data@.subrange(1, j + 1) =~= frame.data@.subrange(1, j as int).push(
                    b,
                ));
            }
            j += 1;
        }
        Ok((frame.id, RodosCanFramePart::Tail { data, seq_num }))
    }
}

/// The mathematical value of one in-progress reassembly: the bytes
/// collected so far, the next expected tail sequence number, and the
/// declared total length.
#[verifier::ext_equal]
pub struct PartialFrameView {
    pub data: Seq<u8>,
    pub seq_num: int,
    pub seq_len: int,
}

/// One in-progress reassembly: bytes collected so far, the next expected
/// tail sequence number (tails are numbered from 1), and the total length
/// the head frame declared.
pub struct RodosPartialFrame {
    /// Bytes collected so far, never more than the declared total length.
    pub data: Vec<u8>,
    /// The sequence number the next tail frame must carry.
    pub seq_num: usize,
    /// The total length the head frame declared.
    pub seq_len: usize,
}

impl View for RodosPartialFrame {
    type V = PartialFrameView;

    open spec fn view(&self) -> PartialFrameView {
        PartialFrameView {
            data: self.data@,
            seq_num: self.seq_num as int,
            seq_len: self.seq_len as int,
        }
    }
}

/// A partial message that has not collected anything yet: no bytes, next
/// expected sequence number 1, the given declared total length.
pub open spec fn spec_fresh_partial(seq_len: int) -> PartialFrameView {
    PartialFrameView { data: Seq::empty(), seq_num: 1, seq_len }
}

impl RodosPartialFrame {
    /// A fresh partial message awaiting `seq_len` bytes.
    pub fn new(seq_len: usize) -> (r: Self)
        ensures
            r@ == spec_fresh_partial(seq_len as int),
    {
        RodosPartialFrame { data: Vec::new(), seq_num: 1, seq_len }
    }
}

/// The invariant of one table entry: the collected bytes never exceed the
/// declared total length, which fits the head frame's two length bytes and
/// the configured maximum; the expected sequence number stays in the range
/// the one-byte tail counter can produce, plus one.
pub open spec fn wf_partial(p: PartialFrameView, mpl: int) -> bool {
    &&& p.data.len() <= p.seq_len <= 0xFFFF
    &&& p.seq_len <= mpl
    &&& 1 <= p.seq_num <= 0x100
}

/// The mapping a table's entry list represents: each source identifier to
/// its partial message.
pub open spec fn table_map(s: Seq<(u32, RodosPartialFrame)>) -> Map<u32, PartialFrameView>
    decreases s.len(),
{
    if s.len() == 0 {
        Map::empty()
    } else {
        table_map(s.drop_last()).insert(s.last().0, s.last().1@)
    }
}

/// No source identifier occurs twice in the entry list.
pub open spec fn unique_keys(s: Seq<(u32, RodosPartialFrame)>) -> bool {
    forall|i: int, j: int| 0 <= i < j < s.len() ==> (#[trigger] s[i]).0 != (#[trigger] s[j]).0
}

/// The represented mapping holds a key exactly when some entry carries it.
pub proof fn lemma_table_map_contains(s: Seq<(u32, RodosPartialFrame)>, k: u32)
    ensures
        table_map(s).contains_key(k) <==> exists|i: int|
            0 <= i < s.len() && (#[trigger] s[i]).0 == k,
    decreases s.len(),
{
    if s.len() > 0 {
        lemma_table_map_contains(s.drop_last(), k);
        if s.last().0 == k {
            assert(s[s.len() - 1].0 == k);
        } else if exists|i: int| 0 <= i < s.len() && (#[trigger] s[i]).0 == k {
            let i = choose|i: int| 0 <= i < s.len() && (#[trigger] s[i]).0 == k;
            assert(s.drop_last()[i] == s[i]);
        } else if table_map(s).contains_key(k) {
            let i = choose|i: int| 0 <= i < s.drop_last().len() && (#[trigger] s.drop_last()[i]).0 == k;
            assert(s[i] == s.drop_last()[i]);
        }
    }
}

/// With unique keys, the entry at any index is what the represented
/// mapping holds for that entry's key.
pub proof fn lemma_table_map_index(s: Seq<(u32, RodosPartialFrame)>, i: int)
    requires
        unique_keys(s),
        0 <= i < s.len(),
    ensures
        table_map(s).contains_key(s[i].0),
        table_map(s)[s[i].0] == s[i].1@,
    decreases s.len(),
{
    if i < s.len() - 1 {
        assert(unique_keys(s.drop_last())) by {
            assert forall|a: int, b: int| 0 <= a < b < s.drop_last().len() implies (
            #[trigger] s.drop_last()[a]).0 != (#[trigger] s.drop_last()[b]).0 by {
                assert(s.drop_last()[a] == s[a] && s.drop_last()[b] == s[b]);
            }
        }
        assert(s.drop_last()[i] == s[i]);
        lemma_table_map_index(s.drop_last(), i);
        assert(s.last().0 != s[i].0);
    }
}

/// With unique keys, the represented mapping has exactly one key per entry.
pub proof fn lemma_table_map_len(s: Seq<(u32, RodosPartialFrame)>)
    requires
        unique_keys(s),
    ensures
        table_map(s).dom().finite(),
        table_map(s).dom().len() == s.len(),
    decreases s.len(),
{
    if s.len() == 0 {
        assert(table_map(s).dom() =~= Set::<u32>::empty());
    } else {
        assert(unique_keys(s.drop_last())) by {
            assert forall|a: int, b: int| 0 <= a < b < s.drop_last().len() implies (
            #[trigger] s.drop_last()[a]).0 != (#[trigger] s.drop_last()[b]).0 by {
                assert(s.drop_last()[a] == s[a] && s.drop_last()[b] == s[b]);
            }
        }
        lemma_table_map_len(s.drop_last());
        lemma_table_map_contains(s.drop_last(), s.last().0);
        assert forall|i: int| 0 <= i < s.drop_last().len() implies (#[trigger] s.drop_last()[i]).0
            != s.last().0 by {
            assert(s.drop_last()[i] == s[i]);
        }
        assert(!table_map(s.drop_last()).contains_key(s.last().0));
        assert(table_map(s).dom() =~= table_map(s.drop_last()).dom().insert(s.last().0));
    }
}

/// Appending an entry adds its key to the represented mapping.
pub proof fn lemma_table_map_push(s: Seq<(u32, RodosPartialFrame)>, k: u32, v: RodosPartialFrame)
    ensures
        table_map(s.push((k, v))) == table_map(s).insert(k, v@),
{
    assert(s.push((k, v)).drop_last() =~= s);
    assert(s.push((k, v)).last() == (k, v));
}

/// Replacing the entry at an index, key kept, updates that key's value in
/// the represented mapping.
pub proof fn lemma_table_map_update(s: Seq<(u32, RodosPartialFrame)>, i: int, v: RodosPartialFrame)
    requires
        unique_keys(s),
        0 <= i < s.len(),
    ensures
        table_map(s.update(i, (s[i].0, v))) == table_map(s).insert(s[i].0, v@),
    decreases s.len(),
{
    let s2 = s.update(i, (s[i].0, v));
    if i == s.len() - 1 {
        assert(s2.drop_last() =~= s.drop_last());
        assert(s2.last() == (s[i].0, v));
        assert(table_map(s.drop_last()).insert(s[i].0, s.last().1@).insert(s[i].0, v@)
            =~= table_map(s.drop_last()).insert(s[i].0, v@));
    } else {
        assert(unique_keys(s.drop_last())) by {
            assert forall|a: int, b: int| 0 <= a < b < s.drop_last().len() implies (
            #[trigger] s.drop_last()[a]).0 != (#[trigger] s.drop_last()[b]).0 by {
                assert(s.drop_last()[a] == s[a] && s.drop_last()[b] == s[b]);
            }
        }
        assert(s.drop_last()[i] == s[i]);
        lemma_table_map_update(s.drop_last(), i, v);
        assert(s2.drop_last() =~= s.drop_last().update(i, (s[i].0, v)));
        assert(s2.last() == s.last());
        assert(s.last().0 != s[i].0);
        assert(table_map(s.drop_last()).insert(s[i].0, v@).insert(s.last().0, s.last().1@)
            =~= table_map(s.drop_last()).insert(s.last().0, s.last().1@).insert(s[i].0, v@));
    }
}

/// What one inbound frame does to the reassembly state, and what the call
/// reports: the new mapping of source identifiers to partial messages and
/// the result — an error, nothing yet, or the identifier of a source whose
/// message is now complete. This is the single transition the receive
/// path takes per frame.
pub open spec fn spec_process(
    t: Map<u32, PartialFrameView>,
    cap: int,
    mpl: int,
    extended: bool,
    id: u32,
    d: Seq<u8>,
) -> (Map<u32, PartialFrameView>, Result<Option<u32>, RodosCanReceiveError>) {
    match spec_decode_err(extended, d) {
        Some(e) => (t, Err(RodosCanReceiveError::CouldNotDecode(e))),
        None => {
            if !t.contains_key(id) && t.dom().len() >= cap {
                (t, Err(RodosCanReceiveError::SourceBufferFull))
            } else if d[0] == 0 {
                // a head never consults the old entry; a refused head
                // neither creates nor changes one
                let total = spec_head_total(d);
                if total > mpl {
                    (t, Err(RodosCanReceiveError::MessageBufferFull))
                } else {
                    let pay = d.subrange(3, d.len() as int);
                    let e2 = PartialFrameView {
                        data: pay.take(min(pay.len() as int, total)),
                        seq_num: 1,
                        seq_len: total,
                    };
                    (
                        t.insert(id, e2),
                        Ok(
                            if e2.seq_len <= e2.data.len() {
                                Some(id)
                            } else {
                                None
                            },
                        ),
                    )
                }
            } else {
                // a tail for an unknown source meets an auto-created
                // empty entry
                let t1 = if t.contains_key(id) {
                    t
                } else {
                    t.insert(id, spec_fresh_partial(0))
                };
                let e = t1[id];
                if d[0] as int != e.seq_num {
                    (t1, Err(RodosCanReceiveError::FrameDropped))
                } else {
                    let pay = d.subrange(1, d.len() as int);
                    let room = e.seq_len - e.data.len();
                    let e2 = PartialFrameView {
                        data: e.data + pay.take(min(pay.len() as int, room)),
                        seq_num: e.seq_num + 1,
                        seq_len: e.seq_len,
                    };
                    (
                        t1.insert(id, e2),
                        Ok(
                            if e2.seq_len <= e2.data.len() {
                                Some(id)
                            } else {
                                None
                            },
                        ),
                    )
                }
            }
        },
    }
}

/// Find the entry carrying a source identifier, if any.
fn find_source(table: &Vec<(u32, RodosPartialFrame)>, id: u32) -> (r: Option<usize>)
    requires
        unique_keys(table@),
    ensures
        match r {
            Some(i) => {
                &&& i < table@.len()
                &&& table@[i as int].0 == id
                &&& table_map(table@).contains_key(id)
                &&& table_map(table@)[id] == table@[i as int].1@
            },
            None => !table_map(table@).contains_key(id),
        },
{
    let mut i: usize = 0;
    while i < table.len()
        invariant
            i <= table@.len(),
            unique_keys(table@),
            forall|j: int| 0 <= j < i ==> (#[trigger] table@[j]).0 != id,
        decreases table@.len() - i,
    {
        if table[i].0 == id {
            proof {
                lemma_table_map_index(table@, i as int);
            }
            return Some(i);
        }
        i += 1;
    }
    proof {
        lemma_table_map_contains(table@, id);
    }
    None
}

/// The receive side of the protocol: a fixed-capacity table of partial
/// messages, one per source identifier currently being collected. The
/// capacity and the maximum packet length are fixed at construction.
pub struct RodosCanReceiver {
    /// The table entries, one per source identifier, keys unique.
    pub table: Vec<(u32, RodosPartialFrame)>,
    /// How many source identifiers may be tracked at once; a frame from a
    /// further source is refused while the table is full.
    pub capacity: usize,
    /// The longest total length a head frame may declare.
    pub max_packet_length: usize,
}

impl RodosCanReceiver {
    /// The mapping from source identifier to partial message that the
    /// table currently represents.
    pub open spec fn sources(&self) -> Map<u32, PartialFrameView> {
        table_map(self.table@)
    }

    /// The receiver's invariant: keys unique, the table within capacity,
    /// every entry well formed.
    pub open spec fn wf(&self) -> bool {
        &&& unique_keys(self.table@)
        &&& self.table@.len() <= self.capacity
        &&& forall|i: int|
            0 <= i < self.table@.len() ==> wf_partial(
                (#[trigger] self.table@[i]).1@,
                self.max_packet_length as int,
            )
    }

    /// An empty receiver that will track at most `capacity` sources and
    /// accept messages of at most `max_packet_length` bytes.
    pub fn new(capacity: usize, max_packet_length: usize) -> (r: Self)
        ensures
            r.wf(),
            r.capacity == capacity,
            r.max_packet_length == max_packet_length,
            r.sources() == Map::<u32, PartialFrameView>::empty(),
    {
        RodosCanReceiver { table: Vec::new(), capacity, max_packet_length }
    }

    /// Feed one inbound frame to the reassembly state machine. Returns the
    /// source identifier of a message that this frame completed, `None`
    /// while more frames are needed, or the error saying why the frame was
    /// dropped — in which case no other source's state is touched. The
    /// whole behaviour is [`spec_process`].
    pub fn process(&mut self, frame: &BusFrame) -> (r: Result<Option<u32>, RodosCanReceiveError>)
        requires
            old(self).wf(),
            frame.wf(),
        ensures
            final(self).wf(),
            final(self).capacity == old(self).capacity,
            final(self).max_packet_length == old(self).max_packet_length,
            ({
                let (t2, res) = spec_process(
                    old(self).sources(),
                    old(self).capacity as int,
                    old(self).max_packet_length as int,
                    frame.extended,
                    frame.id,
                    frame.data@,
                );
                final(self).sources() == t2 && r == res
            }),
    {
        let (id, part) = match decode(frame) {
            Ok(p) => p,
            Err(e) => {
                return Err(RodosCanReceiveError::CouldNotDecode(e));
            },
        };

        let found = find_source(&self.table, id);
        if found.is_none() {
            proof {
                lemma_table_map_len(self.table@);
            }
            if self.table.len() >= self.capacity {
                return Err(RodosCanReceiveError::SourceBufferFull);
            }
        }

        match part {
            RodosCanFramePart::Head { data, seq_len } => {
                // a refused head neither creates nor changes an entry
                if seq_len > self.max_packet_length {
                    return Err(RodosCanReceiveError::MessageBufferFull);
                }
                let take: usize = if data.len() < seq_len {
                    data.len()
                } else {
                    seq_len
                };
                let mut newdata: Vec<u8> = Vec::new();
                let mut j: usize = 0;
                while j < take
                    invariant
                        j <= take,
                        take <= data@.len(),
                        newdata@ == data@.take(j as int),
                    decreases take - j,
                {
                    let b = data[j];
                    newdata.push(b);
                    proof {
                        assert(data@.take(j + 1) =~= data@.take(j as int).push(b));
                    }
                    j += 1;
                }
                let complete = seq_len <= newdata.len();
                let entry = RodosPartialFrame { data: newdata, seq_num: 1, seq_len };
                match found {
                    Some(idx) => {
                        proof {
                            lemma_table_map_update(self.table@, idx as int, entry);
                        }
                        self.table[idx] = (id, entry);
                    },
                    None => {
                        proof {
                            lemma_table_map_contains(self.table@, id);
                            lemma_table_map_push(self.table@, id, entry);
                        }
                        self.table.push((id, entry));
                        proof {
                            assert forall|a: int, b: int|
                                0 <= a < b < self.table@.len() implies (
                            #[trigger] self.table@[a]).0 != (#[trigger] self.table@[b]).0 by {
                                if b < self.table@.len() - 1 {
                                    assert(old(self).table@[a] == self.table@[a]);
                                    assert(old(self).table@[b] == self.table@[b]);
                                } else {
                                    assert(old(self).table@[a] == self.table@[a]);
                                }
                            }
                        }
                    },
                }
                if complete {
                    Ok(Some(id))
                } else {
                    Ok(None)
                }
            },
            RodosCanFramePart::Tail { data, seq_num } => {
                let idx: usize = match found {
                    Some(i) => i,
                    None => {
                        let i = self.table.len();
                        let fresh = RodosPartialFrame::new(0);
                        proof {
                            lemma_table_map_contains(self.table@, id);
                            lemma_table_map_push(self.table@, id, fresh);
                        }
                        self.table.push((id, fresh));
                        proof {
                            assert forall|a: int, b: int|
                                0 <= a < b < self.table@.len() implies (
                            #[trigger] self.table@[a]).0 != (#[trigger] self.table@[b]).0 by {
                                if b < self.table@.len() - 1 {
                                    assert(old(self).table@[a] == self.table@[a]);
                                    assert(old(self).table@[b] == self.table@[b]);
                                } else {
                                    assert(old(self).table@[a] == self.table@[a]);
                                }
                            }
                        }
                        i
                    },
                };
                proof {
                    assert(self.table@[idx as int].0 == id);
                    assert(table_map(self.table@)[id] == self.table@[idx as int].1@);
                }
                let cur_seq_num = self.table[idx].1.seq_num;
                if cur_seq_num != seq_num {
                    return Err(RodosCanReceiveError::FrameDropped);
                }
                let cur_seq_len = self.table[idx].1.seq_len;
                let cur_len = self.table[idx].1.data.len();
                let room = cur_seq_len - cur_len;
                let take: usize = if data.len() < room {
                    data.len()
                } else {
                    room
                };
                let mut newdata: Vec<u8> = Vec::new();
                let mut j: usize = 0;
                while j < cur_len
                    invariant
                        j <= cur_len,
                        idx < self.table@.len(),
                        cur_len == self.table@[idx as int].1@.data.len(),
                        newdata@ == self.table@[idx as int].1@.data.take(j as int),
                    decreases cur_len - j,
                {
                    let b = self.table[idx].1.data[j];
                    newdata.push(b);
                    proof {
                        assert(self.table@[idx as int].1@.data.take(j + 1)
                            =~= self.table@[idx as int].1@.data.take(j as int).push(b));
                    }
                    j += 1;
                }
                proof {
                    assert(newdata@ =~= self.table@[idx as int].1@.data);
                }
                let ghost curdata = self.table@[idx as int].1@.data;
                let mut j2: usize = 0;
                while j2 < take
                    invariant
                        j2 <= take,
                        take <= data@.len(),
                        newdata@ == curdata + data@.take(j2 as int),
                    decreases take - j2,
                {
                    let b = data[j2];
                    newdata.push(b);
                    proof {
                        assert(data@.take(j2 + 1) =~= data@.take(j2 as int).push(b));
                        assert(curdata + data@.take(j2 + 1) =~= (curdata + data@.take(
                            j2 as int,
                        )).push(b));
                    }
                    j2 += 1;
                }
                let complete = cur_seq_len <= newdata.len();
                let entry = RodosPartialFrame {
                    data: newdata,
                    seq_num: cur_seq_num + 1,
                    seq_len: cur_seq_len,
                };
                proof {
                    lemma_table_map_update(self.table@, idx as int, entry);
                }
                self.table[idx] = (id, entry);
                if complete {
                    Ok(Some(id))
                } else {
                    Ok(None)
                }
            },
        }
    }

    /// Feed one inbound frame and, when it completes a message, hand the
    /// whole message out: its topic and device decoded from the source
    /// identifier, and a copy of the collected bytes.
    pub fn handle_frame(&mut self, frame: &BusFrame) -> (r: Result<
        Option<RodosCanFrame>,
        RodosCanReceiveError,
    >)
        requires
            old(self).wf(),
            frame.wf(),
        ensures
            final(self).wf(),
            final(self).capacity == old(self).capacity,
            final(self).max_packet_length == old(self).max_packet_length,
            ({
                let (t2, res) = spec_process(
                    old(self).sources(),
                    old(self).capacity as int,
                    old(self).max_packet_length as int,
                    frame.extended,
                    frame.id,
                    frame.data@,
                );
                &&& final(self).sources() == t2
                &&& match r {
                    Err(e) => res == Err::<Option<u32>, RodosCanReceiveError>(e),
                    Ok(None) => res == Ok::<Option<u32>, RodosCanReceiveError>(None),
                    Ok(Some(msg)) => {
                        &&& res == Ok::<Option<u32>, RodosCanReceiveError>(Some(frame.id))
                        &&& msg.topic == spec_topic_of(frame.id)
                        &&& msg.device == spec_device_of(frame.id)
                        &&& msg.data@ == t2[frame.id].data
                    },
                }
            }),
    {
        match self.process(frame) {
            Err(e) => Err(e),
            Ok(None) => Ok(None),
            Ok(Some(id)) => {
                let (topic, device) = decode_id(id);
                let idx: usize = match find_source(&self.table, id) {
                    Some(i) => i,
                    None => {
                        proof {
                            assert(false);
                        }
                        0
                    },
                };
                let cur_len = self.table[idx].1.data.len();
                let mut out: Vec<u8> = Vec::new();
                let mut j: usize = 0;
                while j < cur_len
                    invariant
                        j <= cur_len,
                        idx < self.table@.len(),
                        cur_len == self.table@[idx as int].1@.data.len(),
                        out@ == self.table@[idx as int].1@.data.take(j as int),
                    decreases cur_len - j,
                {
                    let b = self.table[idx].1.data[j];
                    out.push(b);
                    proof {
                        assert(self.table@[idx as int].1@.data.take(j + 1)
                            =~= self.table@[idx as int].1@.data.take(j as int).push(b));
                    }
                    j += 1;
                }
                proof {
                    assert(out@ =~= self.table@[idx as int].1@.data);
                }
                Ok(Some(RodosCanFrame { topic, device, data: out }))
            },
        }
    }
}

} // verus!
