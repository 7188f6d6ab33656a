//! A small media toolkit: containers (WAV, YUV4MPEG2) are cut into timed
//! packets, packets are decoded into frames (PCM audio, raw video), frames
//! pass through transforms, and are encoded and written back.
//!
//! Underneath sit a bit-level reader, byte sinks with endian-aware writers,
//! stream descriptors with exact time-stamp rescaling, and the text helpers
//! used to present packet data.

pub mod bits;
pub mod format;
pub mod frame;
pub mod io;
pub mod media;
pub mod packet;
pub mod pcm;
pub mod rawvideo;
pub mod transform;
pub mod types;
pub mod wav;
pub mod writer;
pub mod y4m;
