//! Coded packets: owned bytes of one stream with their timing.

use crate::media::Timebase;
use vstd::prelude::*;

verus! {

/// One unit of coded data of one stream.
#[derive(Debug, Clone)]
pub struct Packet {
    pub data: Vec<u8>,
    pub pts: i64,
    pub timebase: Timebase,
    pub stream_index: usize,
    pub keyframe: bool,
    /// Decoding time stamp, where it differs from `pts`.
    pub dts: Option<i64>,
}

impl Packet {
    /// A key-frame packet of stream 0 with no separate decoding time.
    pub fn new(data: Vec<u8>, pts: i64, timebase: Timebase) -> (r: Packet)
        ensures
            r.data@ == data@,
            r.pts == pts,
            r.timebase == timebase,
            r.stream_index == 0,
            r.keyframe,
            r.dts is None,
    {
        Packet { data, pts, timebase, stream_index: 0, keyframe: true, dts: None }
    }

    pub fn size(&self) -> (r: usize)
        ensures
            r == self.data@.len(),
    {
        self.data.len()
    }

    /// The decoding time stamp: `pts` unless one was given.
    pub fn dts(&self) -> (r: i64)
        ensures
            r == match self.dts {
                Some(d) => d,
                None => self.pts,
            },
    {
        match self.dts {
            Some(d) => d,
            None => self.pts,
        }
    }
}

} // verus!
