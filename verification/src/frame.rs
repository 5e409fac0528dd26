//! The model of a raw bus frame.
//!
//! A frame carries an identifier and at most eight data bytes — the hard
//! per-frame ceiling the transport imposes. The `extended` flag records
//! whether the identifier is of the 29-bit extended form; this protocol
//! only ever produces extended identifiers, and the receive path rejects
//! everything else.

use vstd::prelude::*;

verus! {

/// One raw frame as it travels on the bus.
#[derive(Debug, Clone, PartialEq, Eq)]
pub struct BusFrame {
    /// Whether the identifier is a 29-bit extended identifier.
    pub extended: bool,
    /// The raw identifier value.
    pub id: u32,
    /// The frame's data bytes, at most eight of them.
    pub data: Vec<u8>,
}

impl BusFrame {
    /// A frame is well formed when its data fits the transport's
    /// eight-byte ceiling.
    pub open spec fn wf(&self) -> bool {
        self.data@.len() <= 8
    }

    /// Build a frame from its parts.
    pub fn new(extended: bool, id: u32, data: Vec<u8>) -> (r: BusFrame)
        requires
            data@.len() <= 8,
        ensures
            r.extended == extended,
            r.id == id,
            r.data@ == data@,
            r.wf(),
    {
        BusFrame { extended, id, data }
    }
}

} // verus!
