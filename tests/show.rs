use mediakit::frame::{AudioFrame, Frame, Samples};
use mediakit::media::{MediaError, Timebase};
use mediakit::transform::{Transform, TransformChain};
use mediakit::types::{AudioStreamInfo, ShowOptions, StreamInfo, VideoStreamInfo};

#[test]
fn show_options_defaults() {
    let o = ShowOptions::default();
    assert!(!o.json);
    assert_eq!(o.stream_filter, None);
    assert_eq!(o.frame_limit, 10);
    assert_eq!(o.hex_limit, 128);
}

#[test]
fn stream_info_index() {
    let a = StreamInfo::Audio(AudioStreamInfo {
        index: 3,
        codec: "pcm".to_string(),
        sample_rate: 44100,
        channels: 2,
        bit_depth: 16,
    });
    let v = StreamInfo::Video(VideoStreamInfo {
        index: 0,
        codec: "rawvideo".to_string(),
        pix_fmt: "yuv420p".to_string(),
        width: 4,
        height: 4,
        frame_rate: "30/1".to_string(),
        aspect_ratio: None,
        display_aspect: None,
        field_order: "progressive".to_string(),
    });
    assert_eq!(a.index(), 3);
    assert_eq!(v.index(), 0);
}

struct Offset(i16);

impl Transform for Offset {
    fn transformed(&self, frame: Frame) -> Result<Frame, MediaError> {
        match frame {
            Frame::Audio(mut a) => {
                if let Samples::I16(s) = &mut a.samples {
                    for x in s.iter_mut() {
                        *x = x.saturating_add(self.0);
                    }
                }
                Ok(Frame::Audio(a))
            }
            other => Ok(other),
        }
    }

    fn apply(&mut self, frame: Frame) -> Result<Frame, MediaError> {
        self.transformed(frame)
    }

    fn name(&self) -> &'static str {
        "offset"
    }
}

struct Fails;

impl Transform for Fails {
    fn transformed(&self, _frame: Frame) -> Result<Frame, MediaError> {
        Err(MediaError::TransformFailed)
    }

    fn apply(&mut self, frame: Frame) -> Result<Frame, MediaError> {
        self.transformed(frame)
    }

    fn name(&self) -> &'static str {
        "fails"
    }
}

fn frame(samples: Vec<i16>) -> Frame {
    let n = samples.len();
    Frame::Audio(AudioFrame {
        samples: Samples::I16(samples),
        sample_rate: 48000,
        channels: 1,
        sample_count: n,
        pts: 5,
        timebase: Timebase { num: 1, den: 48000 },
    })
}

fn samples_of(f: Frame) -> Vec<i16> {
    match f {
        Frame::Audio(AudioFrame { samples: Samples::I16(s), .. }) => s,
        _ => panic!("not an i16 audio frame"),
    }
}

#[test]
fn chain_applies_in_insertion_order() {
    let mut chain = TransformChain::new(Offset(10), Offset(32760));
    let out = chain.apply(frame(vec![0, -20, 5])).unwrap();
    assert_eq!(out.pts(), 5);
    assert_eq!(samples_of(out), vec![32767, 32750, 32767]);
    let mut a = Offset(10);
    let mut b = Offset(32760);
    let step = b.apply(a.apply(frame(vec![0, -20, 5])).unwrap()).unwrap();
    assert_eq!(samples_of(step), vec![32767, 32750, 32767]);
    assert_eq!(chain.name(), "chain");
}

#[test]
fn chain_stops_at_first_failure() {
    let mut chain = TransformChain::new(Fails, Offset(1));
    assert_eq!(chain.apply(frame(vec![1])).unwrap_err(), MediaError::TransformFailed);
    let mut chain = TransformChain::new(Offset(1), Fails);
    assert_eq!(chain.apply(frame(vec![1])).unwrap_err(), MediaError::TransformFailed);
}
