//! Decoded media: audio sample buffers and video pictures.

use crate::media::Timebase;
use vstd::prelude::*;

verus! {

/// Interleaved audio samples in one of the integer sample formats.
#[derive(Debug, Clone)]
pub enum Samples {
    I16(Vec<i16>),
    I32(Vec<i32>),
}

impl Samples {
    /// How many samples the buffer holds, over all channels.
    pub open spec fn spec_len(&self) -> nat {
        match self {
            Samples::I16(v) => v@.len(),
            Samples::I32(v) => v@.len(),
        }
    }

    pub fn len(&self) -> (r: usize)
        ensures
            r == self.spec_len(),
    {
        match self {
            Samples::I16(v) => v.len(),
            Samples::I32(v) => v.len(),
        }
    }
}

/// A run of audio samples with its timing.
#[derive(Debug, Clone)]
pub struct AudioFrame {
    pub samples: Samples,
    pub sample_rate: u32,
    pub channels: u8,
    /// Samples per channel.
    pub sample_count: usize,
    pub pts: i64,
    pub timebase: Timebase,
}

impl AudioFrame {
    /// The buffer holds `sample_count` samples for each channel.
    pub open spec fn wf(&self) -> bool {
        self.samples.spec_len() == self.sample_count * self.channels
    }
}

/// How the planes of a picture are laid out.
#[derive(Debug, Clone, Copy, PartialEq, Eq, Structural)]
pub enum PixelFormat {
    I420,
    Yv12,
    I422,
    I444,
    Mono,
}

/// One plane of a picture: rows of `stride` bytes each.
#[derive(Debug, Clone)]
pub struct Plane {
    pub data: Vec<u8>,
    pub stride: usize,
}

/// A picture with its timing.
#[derive(Debug, Clone)]
pub struct VideoFrame {
    pub width: u32,
    pub height: u32,
    pub format: PixelFormat,
    pub planes: Vec<Plane>,
    pub pts: i64,
    pub timebase: Timebase,
}

/// A decoded unit of audio or video.
#[derive(Debug, Clone)]
pub enum Frame {
    Audio(AudioFrame),
    Video(VideoFrame),
}

impl Frame {
    pub open spec fn spec_pts(&self) -> i64 {
        match self {
            Frame::Audio(a) => a.pts,
            Frame::Video(v) => v.pts,
        }
    }

    pub open spec fn spec_timebase(&self) -> Timebase {
        match self {
            Frame::Audio(a) => a.timebase,
            Frame::Video(v) => v.timebase,
        }
    }

    /// `other` is the same kind of frame as `self`, with the same timing and
    /// shape: what a transform that is not a resampler must keep.
    pub open spec fn keeps_shape(&self, other: &Frame) -> bool {
        match (self, other) {
            (Frame::Audio(a), Frame::Audio(b)) => {
                &&& a.sample_rate == b.sample_rate
                &&& a.channels == b.channels
                &&& a.sample_count == b.sample_count
                &&& a.pts == b.pts
                &&& a.timebase == b.timebase
            },
            (Frame::Video(a), Frame::Video(b)) => {
                &&& a.width == b.width
                &&& a.height == b.height
                &&& a.format == b.format
                &&& a.pts == b.pts
                &&& a.timebase == b.timebase
            },
            _ => false,
        }
    }

    pub fn pts(&self) -> (r: i64)
        ensures
            r == self.spec_pts(),
    {
        match self {
            Frame::Audio(a) => a.pts,
            Frame::Video(v) => v.pts,
        }
    }

    pub fn timebase(&self) -> (r: Timebase)
        ensures
            r == self.spec_timebase(),
    {
        match self {
            Frame::Audio(a) => a.timebase,
            Frame::Video(v) => v.timebase,
        }
    }
}

} // verus!
