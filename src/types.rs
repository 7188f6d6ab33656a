//! Plain records that describe a media file for presentation.

use vstd::prelude::*;

verus! {

/// Number of frames shown when nothing else is asked for.
pub const DEFAULT_FRAME_LIMIT: usize = 10;

/// Number of bytes of each frame shown in hexadecimal when nothing else is asked for.
pub const DEFAULT_HEX_LIMIT: usize = 128;

/// What to show of a media file.
#[derive(Debug, Clone)]
pub struct ShowOptions {
    pub json: bool,
    pub stream_filter: Option<usize>,
    pub frame_limit: usize,
    pub hex_limit: usize,
}

impl Default for ShowOptions {
    fn default() -> (r: Self)
        ensures
            !r.json,
            r.stream_filter is None,
            r.frame_limit == DEFAULT_FRAME_LIMIT,
            r.hex_limit == DEFAULT_HEX_LIMIT,
    {
        ShowOptions {
            json: false,
            stream_filter: None,
            frame_limit: DEFAULT_FRAME_LIMIT,
            hex_limit: DEFAULT_HEX_LIMIT,
        }
    }
}

/// One stream of a media file.
#[derive(Debug, Clone)]
pub enum StreamInfo {
    Video(VideoStreamInfo),
    Audio(AudioStreamInfo),
}

impl StreamInfo {
    /// The position of the stream in its file.
    pub open spec fn spec_index(&self) -> usize {
        match self {
            StreamInfo::Video(v) => v.index,
            StreamInfo::Audio(a) => a.index,
        }
    }

    pub fn index(&self) -> (r: usize)
        ensures
            r == self.spec_index(),
    {
        match self {
            StreamInfo::Video(v) => v.index,
            StreamInfo::Audio(a) => a.index,
        }
    }
}

#[derive(Debug, Clone)]
pub struct VideoStreamInfo {
    pub index: usize,
    pub codec: String,
    pub pix_fmt: String,
    pub width: u32,
    pub height: u32,
    pub frame_rate: String,
    pub aspect_ratio: Option<String>,
    pub display_aspect: Option<String>,
    pub field_order: String,
}

#[derive(Debug, Clone)]
pub struct AudioStreamInfo {
    pub index: usize,
    pub codec: String,
    pub sample_rate: u32,
    pub channels: u8,
    pub bit_depth: u16,
}

/// One packet of a stream as shown: its number, time stamp, size and bytes
/// in hexadecimal.
#[derive(Debug, Clone)]
pub struct FrameInfo {
    pub index: u64,
    pub pts: i64,
    pub keyframe: bool,
    pub size: usize,
    pub hex: String,
}

} // verus!
